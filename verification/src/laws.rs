//! What holds of the grammar as a whole, proved from its definition.

use vstd::prelude::*;
use vstd::string::StringSliceAdditionalSpecFns;
use crate::ast::{ExprModel, Program, PrototypeModel, StatementModel};
use crate::diagnostics::{Failure, Outcome, Rule};
use crate::grammar::{
    at_keyword, item_start, lemma_identifier_bounds, lemma_item_start, lemma_items_bounds,
    lemma_parameters_bounds, lemma_prototype_bounds, lemma_statement_bounds, remaining,
    spaces_end, spec_arguments, spec_call, spec_expr, spec_external, spec_function,
    spec_identifier, spec_items, spec_parameters, spec_program, spec_prototype, spec_statement,
    spec_statements, spec_variable, statement_start,
};
use crate::lexical::{
    has_byte, has_class, in_class, keyword_def, keyword_extern, lemma_run_end, lemma_run_end_is,
    starts_with, Class,
};
use crate::model::Modeled;
use crate::number::spec_number;

verus! {

/// Whether `t` has the shape of an identifier: a letter, or an underscore
/// and a letter, followed by letters, digits and underscores only.
pub open spec fn is_identifier_text(t: Seq<u8>) -> bool {
    ||| t.len() >= 1 && in_class(Class::Letter, t[0]) && forall|i: int|
        1 <= i < t.len() ==> in_class(Class::Word, #[trigger] t[i])
    ||| t.len() >= 2 && t[0] == 95 && in_class(Class::Letter, t[1]) && forall|i: int|
        2 <= i < t.len() ==> in_class(Class::Word, #[trigger] t[i])
}

/// Whether `t` begins with `def` or with `extern`.
pub open spec fn begins_with_keyword(t: Seq<u8>) -> bool {
    starts_with(t, 0, keyword_def()) || starts_with(t, 0, keyword_extern())
}

/// Whether `t` can be a name: it has the shape of an identifier and begins
/// with no keyword.
pub open spec fn is_name(t: Seq<u8>) -> bool {
    is_identifier_text(t) && !begins_with_keyword(t)
}

/// Whether an expression is one that the grammar can produce: no infix node,
/// and every name a name.
pub open spec fn expr_well_formed(e: ExprModel) -> bool
    decreases e,
{
    match e {
        ExprModel::Number(_) => true,
        ExprModel::Variable(name) => is_name(name),
        ExprModel::Infix(_, _, _) => false,
        ExprModel::Call(callee, arguments) => is_name(callee) && forall|i: int|
            0 <= i < arguments.len() ==> expr_well_formed(#[trigger] arguments[i]),
    }
}

/// Whether all of `items` are well formed.
pub open spec fn exprs_well_formed(items: Seq<ExprModel>) -> bool {
    forall|i: int| 0 <= i < items.len() ==> expr_well_formed(#[trigger] items[i])
}

/// Whether all of `names` are names.
pub open spec fn are_names(names: Seq<Seq<u8>>) -> bool {
    forall|i: int| 0 <= i < names.len() ==> is_name(#[trigger] names[i])
}

/// Whether a prototype is one that the grammar can produce.
pub open spec fn prototype_well_formed(p: PrototypeModel) -> bool {
    is_name(p.name) && are_names(p.parameters)
}

/// Whether a statement is one that the grammar can produce.
pub open spec fn statement_well_formed(s: StatementModel) -> bool {
    match s {
        StatementModel::Function(p, body) => prototype_well_formed(p) && expr_well_formed(body),
        StatementModel::Extern(p) => prototype_well_formed(p),
        StatementModel::Expression(e) => expr_well_formed(e),
    }
}

/// Whether all of `statements` are well formed.
pub open spec fn statements_well_formed(statements: Seq<StatementModel>) -> bool {
    forall|i: int| 0 <= i < statements.len() ==> statement_well_formed(#[trigger] statements[i])
}

/// A keyword stands in the input at the start of a token exactly where the
/// token begins with it.
proof fn lemma_keyword_in_token(b: Seq<u8>, pos: int, end: int, word: Seq<u8>)
    requires
        0 <= pos <= end <= b.len(),
        !has_class(b, end, Class::Word),
        forall|i: int| 0 <= i < word.len() ==> in_class(Class::Word, #[trigger] word[i]),
    ensures
        starts_with(b, pos, word) <==> starts_with(b.subrange(pos, end), 0, word),
{
    let t = b.subrange(pos, end);
    if starts_with(b, pos, word) {
        let k = b.subrange(pos, pos + word.len());
        if end < pos + word.len() {
            assert(b[end] == k[end - pos]);
            assert(in_class(Class::Word, word[end - pos]));
        }
        assert(t.subrange(0, word.len() as int) =~= k);
    }
    if starts_with(t, 0, word) {
        assert(b.subrange(pos, pos + word.len()) =~= t.subrange(0, word.len() as int));
    }
}

/// A token begins with a keyword exactly where a keyword stands at its
/// start in the input.
proof fn lemma_keyword_at_token(b: Seq<u8>, pos: int, end: int)
    requires
        0 <= pos <= end <= b.len(),
        !has_class(b, end, Class::Word),
    ensures
        at_keyword(b, pos) <==> begins_with_keyword(b.subrange(pos, end)),
{
    lemma_keyword_in_token(b, pos, end, keyword_def());
    lemma_keyword_in_token(b, pos, end, keyword_extern());
}

/// Every identifier is taken whole, and nothing else with it: where a token
/// with the shape of an identifier, which begins with no keyword, stands
/// in the input in front of a byte that cannot continue it (or at the
/// end), the identifier rule matches exactly that token.
pub proof fn law_identifier_takes_its_token(b: Seq<u8>, pos: int, end: int)
    requires
        0 <= pos <= end <= b.len(),
        is_name(b.subrange(pos, end)),
        !has_class(b, end, Class::Word),
    ensures
        spec_identifier(b, pos) == Outcome::Match(b.subrange(pos, end), end),
{
    let t = b.subrange(pos, end);
    lemma_keyword_at_token(b, pos, end);
    assert(t[0] == b[pos]);
    if in_class(Class::Letter, t[0]) {
        assert forall|i: int| pos + 1 <= i < end implies has_class(b, i, Class::Word) by {
            assert(t[i - pos] == b[i]);
        }
        lemma_run_end_is(b, pos + 1, Class::Word, end);
    } else {
        assert(t[1] == b[pos + 1]);
        assert forall|i: int| pos + 2 <= i < end implies has_class(b, i, Class::Word) by {
            assert(t[i - pos] == b[i]);
        }
        lemma_run_end_is(b, pos + 2, Class::Word, end);
    }
}

/// Whatever the identifier rule matches is a name, as long as it can be: it
/// has the shape of an identifier, begins with no keyword, and stops in
/// front of a byte that cannot continue it.
pub proof fn law_identifier_matches_names_only(b: Seq<u8>, pos: int)
    ensures
        spec_identifier(b, pos) matches Outcome::Match(name, end) ==> {
            &&& 0 <= pos < end <= b.len()
            &&& name == b.subrange(pos, end)
            &&& is_name(name)
            &&& !has_class(b, end, Class::Word)
        },
{
    if let Outcome::Match(name, end) = spec_identifier(b, pos) {
        lemma_identifier_bounds(b, pos);
        lemma_run_end(b, pos + 1, Class::Word);
        lemma_run_end(b, pos + 2, Class::Word);
        lemma_keyword_at_token(b, pos, end);
        assert(name[0] == b[pos]);
        if has_class(b, pos, Class::Letter) {
            assert forall|i: int| 1 <= i < name.len() implies in_class(
                Class::Word,
                #[trigger] name[i],
            ) by {
                assert(has_class(b, pos + i, Class::Word));
            }
        } else {
            assert(name[1] == b[pos + 1]);
            assert forall|i: int| 2 <= i < name.len() implies in_class(
                Class::Word,
                #[trigger] name[i],
            ) by {
                assert(has_class(b, pos + i, Class::Word));
            }
        }
    }
}

/// Where the identifier rule does not match, it fails softly and in place:
/// at the offset where it was tried, having consumed nothing. It does so in
/// front of a digit, and in front of an underscore that no letter follows.
pub proof fn law_identifier_fails_in_place(b: Seq<u8>, pos: int)
    ensures
        !(spec_identifier(b, pos) is Hard),
        spec_identifier(b, pos) matches Outcome::Soft(f) ==> f.offset == pos && f.rules
            == seq![Rule::Identifier],
        has_class(b, pos, Class::Digit) ==> spec_identifier(b, pos) is Soft,
        has_byte(b, pos, 95) && !has_class(b, pos + 1, Class::Letter) ==> spec_identifier(b, pos)
            is Soft,
{
    if has_byte(b, pos, 95) || has_class(b, pos, Class::Digit) {
        if starts_with(b, pos, keyword_def()) {
            assert(b.subrange(pos, pos + 3)[0] == b[pos]);
        }
        if starts_with(b, pos, keyword_extern()) {
            assert(b.subrange(pos, pos + 6)[0] == b[pos]);
        }
    }
}

/// Whether an outcome, if it is a failure of a rule tried at `pos`, points
/// at an offset between `pos` and the end of the input and names `rule` as
/// the outermost of its rules.
pub open spec fn fails_inside<M>(outcome: Outcome<M>, b: Seq<u8>, pos: int, rule: Rule) -> bool {
    match outcome {
        Outcome::Match(_, _) => true,
        Outcome::Soft(f) => pos <= f.offset <= b.len() && f.rules.len() > 0 && f.rules.last()
            == rule,
        Outcome::Hard(f) => pos <= f.offset <= b.len() && f.rules.len() > 0 && f.rules.last()
            == rule,
    }
}

/// A failure of an expression rule points into the input, at or behind the
/// offset where the rule was tried, and names that rule last.
pub proof fn law_expression_faults_lie_inside(b: Seq<u8>, pos: int)
    requires
        0 <= pos <= b.len(),
    ensures
        fails_inside(spec_expr(b, pos), b, pos, Rule::Expression),
        fails_inside(spec_identifier(b, pos), b, pos, Rule::Identifier),
        fails_inside(spec_number(b, pos), b, pos, Rule::Number),
        fails_inside(spec_variable(b, pos), b, pos, Rule::Variable),
    decreases remaining(b, pos), 3nat,
{
    law_call_faults_lie_inside(b, pos);
}

/// A failure of the call rule points into the input, at or behind the
/// offset where the rule was tried, and names that rule last.
pub proof fn law_call_faults_lie_inside(b: Seq<u8>, pos: int)
    requires
        0 <= pos <= b.len(),
    ensures
        fails_inside(spec_call(b, pos), b, pos, Rule::Call),
    decreases remaining(b, pos), 2nat,
{
    lemma_identifier_bounds(b, pos);
    if let Outcome::Match(_, mid) = spec_identifier(b, pos) {
        law_argument_faults_lie_inside(b, mid);
    }
}

/// A failure of the arguments rule points into the input, at or behind the
/// offset where the rule was tried, and names that rule last.
pub proof fn law_argument_faults_lie_inside(b: Seq<u8>, pos: int)
    requires
        0 <= pos <= b.len(),
    ensures
        fails_inside(spec_arguments(b, pos), b, pos, Rule::Arguments),
    decreases remaining(b, pos), 1nat,
{
    if has_byte(b, pos, 40) {
        lemma_item_faults(b, pos + 1, Seq::empty());
        lemma_items_bounds(b, pos + 1, Seq::empty());
        if let Outcome::Match(_, stop) = spec_items(b, pos + 1, Seq::empty()) {
            lemma_run_end(b, stop, Class::Whitespace);
        }
    }
}

proof fn lemma_item_faults(b: Seq<u8>, pos: int, done: Seq<ExprModel>)
    requires
        0 <= pos <= b.len(),
    ensures
        !(spec_items(b, pos, done) is Soft),
        spec_items(b, pos, done) matches Outcome::Hard(f) ==> pos <= f.offset <= b.len()
            && f.rules.len() > 0,
    decreases remaining(b, pos), 4nat,
{
    if let Some(start) = item_start(b, pos, done.len() == 0) {
        lemma_item_start(b, pos, done.len() == 0);
        law_expression_faults_lie_inside(b, start);
        if let Outcome::Match(item, end) = spec_expr(b, start) {
            if pos < end <= b.len() {
                lemma_item_faults(b, end, done.push(item));
            }
        }
    }
}

/// A failure of the prototype rule points into the input, at or behind the
/// offset where the rule was tried, and names that rule last.
pub proof fn law_prototype_faults_lie_inside(b: Seq<u8>, pos: int)
    requires
        0 <= pos <= b.len(),
    ensures
        fails_inside(spec_prototype(b, pos), b, pos, Rule::Prototype),
{
    lemma_identifier_bounds(b, pos);
    if let Outcome::Match(_, mid) = spec_identifier(b, pos) {
        lemma_parameters_bounds(b, mid + 1, Seq::empty());
        lemma_run_end(b, spec_parameters(b, mid + 1, Seq::empty()).1, Class::Whitespace);
    }
}

/// A failure of the extern rule points into the input, at or behind the
/// offset where the rule was tried, and names that rule last.
pub proof fn law_extern_faults_lie_inside(b: Seq<u8>, pos: int)
    requires
        0 <= pos <= b.len(),
    ensures
        fails_inside(spec_external(b, pos), b, pos, Rule::Extern),
{
    if starts_with(b, pos, keyword_extern()) {
        let start = spaces_end(b, pos + 6);
        lemma_run_end(b, pos + 6, Class::Whitespace);
        law_prototype_faults_lie_inside(b, start);
    }
}

/// A failure of the function rule points into the input, at or behind the
/// offset where the rule was tried, and names that rule last.
pub proof fn law_function_faults_lie_inside(b: Seq<u8>, pos: int)
    requires
        0 <= pos <= b.len(),
    ensures
        fails_inside(spec_function(b, pos), b, pos, Rule::Function),
{
    if starts_with(b, pos, keyword_def()) {
        let start = spaces_end(b, pos + 3);
        lemma_run_end(b, pos + 3, Class::Whitespace);
        law_prototype_faults_lie_inside(b, start);
        lemma_prototype_bounds(b, start);
        if let Outcome::Match(_, mid) = spec_prototype(b, start) {
            lemma_run_end(b, mid, Class::Whitespace);
            law_expression_faults_lie_inside(b, spaces_end(b, mid));
        }
    }
}

/// A failure of the statement rule points into the input, at or behind the
/// offset where the rule was tried, and names that rule last.
pub proof fn law_statement_faults_lie_inside(b: Seq<u8>, pos: int)
    requires
        0 <= pos <= b.len(),
    ensures
        fails_inside(spec_statement(b, pos), b, pos, Rule::Statement),
{
    law_expression_faults_lie_inside(b, pos);
    law_extern_faults_lie_inside(b, pos);
    law_function_faults_lie_inside(b, pos);
}

/// A sequence of statements never fails softly; it stops at or behind its
/// start, inside the input; and where it fails, the failure points into
/// the input and names the sequence last.
pub proof fn law_sequence_faults_lie_inside(b: Seq<u8>, pos: int, done: Seq<StatementModel>)
    requires
        0 <= pos <= b.len(),
    ensures
        match spec_statements(b, pos, done) {
            Outcome::Match(_, stop) => pos <= stop <= b.len(),
            Outcome::Soft(_) => false,
            Outcome::Hard(f) => pos <= f.offset <= b.len() && f.rules.len() > 0 && f.rules.last()
                == Rule::Statements,
        },
    decreases remaining(b, pos),
{
    if let Some(start) = statement_start(b, pos, done.len() == 0) {
        lemma_run_end(b, pos, Class::Separator);
        law_statement_faults_lie_inside(b, start);
        if let Outcome::Match(statement, end) = spec_statement(b, start) {
            lemma_statement_bounds(b, start);
            law_sequence_faults_lie_inside(b, end, done.push(statement));
        }
    }
}

/// A failure of the program rule points into the input and names the
/// program last.
pub proof fn law_program_faults_lie_inside(b: Seq<u8>)
    ensures
        spec_program(b) matches Err(f) ==> {
            &&& 0 <= f.offset <= b.len()
            &&& f.rules.len() > 0
            &&& f.rules.last() == Rule::Program
        },
{
    lemma_run_end(b, 0, Class::Whitespace);
    let start = spaces_end(b, 0);
    law_sequence_faults_lie_inside(b, start, Seq::empty());
    if let Outcome::Match(_, stop) = spec_statements(b, start, Seq::empty()) {
        lemma_run_end(b, stop, Class::Whitespace);
        lemma_run_end(b, stop, Class::Separator);
    }
}

/// Where the statements of the sequence that goes on at `pos` start, in the
/// order in which the sequence reads them.
pub open spec fn statement_offsets(b: Seq<u8>, pos: int, first: bool) -> Seq<int>
    decreases remaining(b, pos),
{
    match statement_start(b, pos, first) {
        None => Seq::empty(),
        Some(start) => match spec_statement(b, start) {
            Outcome::Match(_, end) => {
                proof {
                    lemma_run_end(b, pos, Class::Separator);
                    lemma_statement_bounds(b, start);
                }
                seq![start] + statement_offsets(b, end, false)
            },
            _ => Seq::empty(),
        },
    }
}

/// Whether the statement rule reads `statement` at `offset`.
pub open spec fn reads_at(b: Seq<u8>, offset: int, statement: StatementModel) -> bool {
    spec_statement(b, offset) matches Outcome::Match(s, _) && s == statement
}

/// Whether `list` holds, behind its first `skip` statements, exactly what
/// the statement rule reads at each of `offsets`, in that order.
pub open spec fn reads_in_order(
    b: Seq<u8>,
    list: Seq<StatementModel>,
    skip: int,
    offsets: Seq<int>,
) -> bool {
    &&& list.len() == skip + offsets.len()
    &&& forall|k: int|
        0 <= k < offsets.len() ==> reads_at(b, #[trigger] offsets[k], list[skip + k])
}

/// Whether `offsets` ascend strictly from `floor` on.
pub open spec fn ascending_from(offsets: Seq<int>, floor: int) -> bool {
    &&& forall|k: int| 0 <= k < offsets.len() ==> floor <= #[trigger] offsets[k]
    &&& forall|j: int, k: int|
        0 <= j < k < offsets.len() ==> #[trigger] offsets[j] < #[trigger] offsets[k]
}

/// A sequence of statements keeps what was read before it and adds what the
/// statement rule reads at ascending offsets, in that order.
pub proof fn law_sequence_follows_the_source(b: Seq<u8>, pos: int, done: Seq<StatementModel>)
    requires
        0 <= pos <= b.len(),
    ensures
        spec_statements(b, pos, done) matches Outcome::Match(list, _) ==> {
            &&& list.subrange(0, done.len() as int) == done
            &&& reads_in_order(b, list, done.len() as int, statement_offsets(b, pos, done.len() == 0))
            &&& ascending_from(statement_offsets(b, pos, done.len() == 0), pos)
        },
    decreases remaining(b, pos),
{
    if let Outcome::Match(list, _) = spec_statements(b, pos, done) {
        let offsets = statement_offsets(b, pos, done.len() == 0);
        match statement_start(b, pos, done.len() == 0) {
            None => {
                assert(list.subrange(0, done.len() as int) =~= done);
            },
            Some(start) => {
                lemma_run_end(b, pos, Class::Separator);
                match spec_statement(b, start) {
                    Outcome::Match(statement, end) => {
                        lemma_statement_bounds(b, start);
                        let more = done.push(statement);
                        let rest = statement_offsets(b, end, false);
                        law_sequence_follows_the_source(b, end, more);
                        assert(offsets =~= seq![start] + rest);
                        assert(list.subrange(0, more.len() as int)[done.len() as int]
                            == statement);
                        assert(list.subrange(0, done.len() as int) =~= done) by {
                            assert forall|i: int| 0 <= i < done.len() implies list[i]
                                == done[i] by {
                                assert(list.subrange(0, more.len() as int)[i] == more[i]);
                            }
                        }
                        assert forall|k: int| 0 <= k < offsets.len() implies reads_at(
                            b,
                            #[trigger] offsets[k],
                            list[done.len() + k],
                        ) by {
                            if k > 0 {
                                assert(offsets[k] == rest[k - 1]);
                            }
                        }
                        assert forall|k: int| 0 <= k < offsets.len() implies pos
                            <= #[trigger] offsets[k] by {
                            if k > 0 {
                                assert(offsets[k] == rest[k - 1]);
                            }
                        }
                        assert forall|j: int, k: int| 0 <= j < k < offsets.len() implies
                            #[trigger] offsets[j] < #[trigger] offsets[k] by {
                            assert(offsets[k] == rest[k - 1]);
                            if j > 0 {
                                assert(offsets[j] == rest[j - 1]);
                            }
                        }
                    },
                    _ => {
                        assert(list.subrange(0, done.len() as int) =~= done);
                    },
                }
            },
        }
    }
}

/// A program holds its statements in source order: they are exactly what
/// the statement rule reads at offsets that ascend through the input.
pub proof fn law_program_follows_the_source(b: Seq<u8>)
    ensures
        spec_program(b) matches Ok(list) ==> {
            &&& reads_in_order(b, list, 0, statement_offsets(b, spaces_end(b, 0), true))
            &&& ascending_from(statement_offsets(b, spaces_end(b, 0), true), 0)
        },
{
    lemma_run_end(b, 0, Class::Whitespace);
    law_sequence_follows_the_source(b, spaces_end(b, 0), Seq::empty());
}

/// Parsing is a function of the text: two results of parsing equal texts
/// stand for the same program or for the same failure.
pub proof fn law_parse_is_deterministic(
    first_input: &str,
    second_input: &str,
    first: Result<Program, Failure>,
    second: Result<Program, Failure>,
)
    requires
        first_input@ == second_input@,
        first.model() == spec_program(first_input.spec_bytes()),
        second.model() == spec_program(second_input.spec_bytes()),
    ensures
        first.model() == second.model(),
        first is Ok <==> second is Ok,
{
}

/// Behind `extern` there is no way back: a statement that starts with the
/// keyword is an extern declaration or a hard failure inside the extern
/// rule, never an expression.
pub proof fn law_extern_commits(b: Seq<u8>, pos: int)
    requires
        starts_with(b, pos, keyword_extern()),
    ensures
        match spec_statement(b, pos) {
            Outcome::Match(statement, _) => statement is Extern,
            Outcome::Hard(f) => f.rules.len() >= 2 && f.rules[f.rules.len() - 2] == Rule::Extern
                && f.rules.last() == Rule::Statement,
            Outcome::Soft(_) => false,
        },
{
}

/// Behind `def` there is no way back: a statement that starts with the
/// keyword is a function definition or a hard failure inside the function
/// rule, never an expression.
pub proof fn law_def_commits(b: Seq<u8>, pos: int)
    requires
        starts_with(b, pos, keyword_def()),
    ensures
        match spec_statement(b, pos) {
            Outcome::Match(statement, _) => statement is Function,
            Outcome::Hard(f) => f.rules.len() >= 2 && f.rules[f.rules.len() - 2]
                == Rule::Function && f.rules.last() == Rule::Statement,
            Outcome::Soft(_) => false,
        },
{
    if starts_with(b, pos, keyword_extern()) {
        assert(b.subrange(pos, pos + 3)[0] == b[pos]);
        assert(b.subrange(pos, pos + 6)[0] == b[pos]);
        assert(b.subrange(pos, pos + 3)[1] == b[pos + 1]);
        assert(b.subrange(pos, pos + 6)[1] == b[pos + 1]);
    }
}

/// Every expression that the grammar produces is well formed: it holds no
/// infix node, and its names are names.
pub proof fn law_expressions_are_well_formed(b: Seq<u8>, pos: int)
    ensures
        spec_expr(b, pos) matches Outcome::Match(e, _) ==> expr_well_formed(e),
    decreases remaining(b, pos), 3nat,
{
    lemma_call_well_formed(b, pos);
    law_identifier_matches_names_only(b, pos);
}

proof fn lemma_call_well_formed(b: Seq<u8>, pos: int)
    ensures
        spec_call(b, pos) matches Outcome::Match(e, _) ==> expr_well_formed(e),
    decreases remaining(b, pos), 2nat,
{
    law_identifier_matches_names_only(b, pos);
    if let Outcome::Match(_, mid) = spec_identifier(b, pos) {
        lemma_arguments_well_formed(b, mid);
    }
}

proof fn lemma_arguments_well_formed(b: Seq<u8>, pos: int)
    ensures
        spec_arguments(b, pos) matches Outcome::Match(items, _) ==> exprs_well_formed(items),
    decreases remaining(b, pos), 1nat,
{
    if has_byte(b, pos, 40) {
        lemma_items_well_formed(b, pos + 1, Seq::empty());
    }
}

proof fn lemma_items_well_formed(b: Seq<u8>, pos: int, done: Seq<ExprModel>)
    requires
        exprs_well_formed(done),
    ensures
        spec_items(b, pos, done) matches Outcome::Match(items, _) ==> exprs_well_formed(items),
    decreases remaining(b, pos), 4nat,
{
    if let Some(start) = item_start(b, pos, done.len() == 0) {
        lemma_item_start(b, pos, done.len() == 0);
        if let Outcome::Match(item, end) = spec_expr(b, start) {
            if pos < end <= b.len() {
                law_expressions_are_well_formed(b, start);
                lemma_items_well_formed(b, end, done.push(item));
            }
        }
    }
}

proof fn lemma_parameters_are_names(b: Seq<u8>, pos: int, done: Seq<Seq<u8>>)
    requires
        are_names(done),
    ensures
        are_names(spec_parameters(b, pos, done).0),
    decreases remaining(b, pos),
{
    if let Some(start) = item_start(b, pos, done.len() == 0) {
        if let Outcome::Match(name, end) = spec_identifier(b, start) {
            lemma_item_start(b, pos, done.len() == 0);
            law_identifier_matches_names_only(b, start);
            lemma_parameters_are_names(b, end, done.push(name));
        }
    }
}

/// Every prototype that the grammar produces is well formed: its name and
/// its parameters are names.
pub proof fn law_prototypes_are_well_formed(b: Seq<u8>, pos: int)
    ensures
        spec_prototype(b, pos) matches Outcome::Match(p, _) ==> prototype_well_formed(p),
{
    law_identifier_matches_names_only(b, pos);
    if let Outcome::Match(_, mid) = spec_identifier(b, pos) {
        lemma_parameters_are_names(b, mid + 1, Seq::empty());
    }
}

/// Every statement that the grammar produces is well formed.
pub proof fn law_statements_are_well_formed(b: Seq<u8>, pos: int)
    ensures
        spec_statement(b, pos) matches Outcome::Match(s, _) ==> statement_well_formed(s),
{
    law_expressions_are_well_formed(b, pos);
    law_prototypes_are_well_formed(b, spaces_end(b, pos + 6));
    law_prototypes_are_well_formed(b, spaces_end(b, pos + 3));
    if let Outcome::Match(_, mid) = spec_prototype(b, spaces_end(b, pos + 3)) {
        law_expressions_are_well_formed(b, spaces_end(b, mid));
    }
}

proof fn lemma_sequence_well_formed(b: Seq<u8>, pos: int, done: Seq<StatementModel>)
    requires
        statements_well_formed(done),
    ensures
        spec_statements(b, pos, done) matches Outcome::Match(list, _) ==> statements_well_formed(
            list,
        ),
    decreases remaining(b, pos),
{
    if let Some(start) = statement_start(b, pos, done.len() == 0) {
        if let Outcome::Match(statement, end) = spec_statement(b, start) {
            lemma_run_end(b, pos, Class::Separator);
            lemma_statement_bounds(b, start);
            law_statements_are_well_formed(b, start);
            lemma_sequence_well_formed(b, end, done.push(statement));
        }
    }
}

/// Every program that the grammar produces is well formed: no statement
/// holds an infix node, and every name in it is a name. So no keyword is
/// ever read as a variable or as a callee.
pub proof fn law_programs_are_well_formed(b: Seq<u8>)
    ensures
        spec_program(b) matches Ok(statements) ==> statements_well_formed(statements),
{
    lemma_sequence_well_formed(b, spaces_end(b, 0), Seq::empty());
}

} // verus!
