//! The grammar, as mathematical functions from the input bytes and a start
//! offset to an outcome.
//!
//! Alternatives are tried in order and the first that matches or fails hard
//! decides; where all fail softly, the fault is that of the last one. A rule
//! that has seen its keyword or its opening parenthesis is committed: what
//! fails behind that point fails hard.

use vstd::prelude::*;
use crate::ast::{ExprModel, PrototypeModel, StatementModel};
use crate::diagnostics::{fault, fault_within, within, Expected, Fault, Outcome, Rule};
use crate::lexical::{
    has_byte, has_class, keyword_def, keyword_extern, lemma_run_end, run_end, starts_with, Class,
};
use crate::number::{lemma_number_end, spec_number};

verus! {

/// How much of the input lies at or behind `pos`.
pub open spec fn remaining(b: Seq<u8>, pos: int) -> nat {
    if pos <= b.len() {
        (b.len() - pos) as nat
    } else {
        0
    }
}

/// Where the whitespace that starts at `pos` stops.
pub open spec fn spaces_end(b: Seq<u8>, pos: int) -> int {
    run_end(b, pos, Class::Whitespace)
}

/// Whether a word that begins with a keyword stands at `pos`.
pub open spec fn at_keyword(b: Seq<u8>, pos: int) -> bool {
    starts_with(b, pos, keyword_def()) || starts_with(b, pos, keyword_extern())
}

/// The identifier rule: a letter, or an underscore and a letter, then
/// letters, digits and underscores as far as they go; never at a keyword.
pub open spec fn spec_identifier(b: Seq<u8>, pos: int) -> Outcome<Seq<u8>> {
    if at_keyword(b, pos) {
        Outcome::Soft(fault(pos, Rule::Identifier, Expected::NonKeyword))
    } else if has_class(b, pos, Class::Letter) {
        let end = run_end(b, pos + 1, Class::Word);
        Outcome::Match(b.subrange(pos, end), end)
    } else if has_byte(b, pos, 95) && has_class(b, pos + 1, Class::Letter) {
        let end = run_end(b, pos + 2, Class::Word);
        Outcome::Match(b.subrange(pos, end), end)
    } else {
        Outcome::Soft(fault(pos, Rule::Identifier, Expected::IdentifierStart))
    }
}

/// The variable rule: an identifier, read as an expression.
pub open spec fn spec_variable(b: Seq<u8>, pos: int) -> Outcome<ExprModel> {
    match spec_identifier(b, pos) {
        Outcome::Match(name, end) => Outcome::Match(ExprModel::Variable(name), end),
        Outcome::Soft(f) => Outcome::Soft(fault_within(f, Rule::Variable)),
        Outcome::Hard(f) => Outcome::Hard(fault_within(f, Rule::Variable)),
    }
}

/// Where the next item of a parenthesised list starts, if the list goes on
/// at `pos`: behind optional whitespace for the first item, behind optional
/// whitespace, a comma and optional whitespace for a later one.
pub open spec fn item_start(b: Seq<u8>, pos: int, first: bool) -> Option<int> {
    if first {
        Some(spaces_end(b, pos))
    } else if has_byte(b, spaces_end(b, pos), 44) {
        Some(spaces_end(b, spaces_end(b, pos) + 1))
    } else {
        None
    }
}

/// The expression rule: a call, else a number, else a variable.
pub open spec fn spec_expr(b: Seq<u8>, pos: int) -> Outcome<ExprModel>
    decreases remaining(b, pos), 3nat,
{
    within(
        match spec_call(b, pos) {
            Outcome::Soft(_) => match spec_number(b, pos) {
                Outcome::Soft(_) => spec_variable(b, pos),
                other => other,
            },
            other => other,
        },
        Rule::Expression,
    )
}

/// The call rule: an identifier and, directly behind it, its arguments.
pub open spec fn spec_call(b: Seq<u8>, pos: int) -> Outcome<ExprModel>
    decreases remaining(b, pos), 2nat,
{
    match spec_identifier(b, pos) {
        Outcome::Match(callee, mid) => {
            proof {
                lemma_identifier_bounds(b, pos);
            }
            match spec_arguments(b, mid) {
                Outcome::Match(arguments, end) => Outcome::Match(
                    ExprModel::Call(callee, arguments),
                    end,
                ),
                Outcome::Soft(f) => Outcome::Soft(fault_within(f, Rule::Call)),
                Outcome::Hard(f) => Outcome::Hard(fault_within(f, Rule::Call)),
            }
        },
        Outcome::Soft(f) => Outcome::Soft(fault_within(f, Rule::Call)),
        Outcome::Hard(f) => Outcome::Hard(fault_within(f, Rule::Call)),
    }
}

/// The arguments rule: `(`, expressions separated by commas, `)`, with
/// optional whitespace before each expression, each comma and the `)`.
/// Behind the `(` the rule is committed.
pub open spec fn spec_arguments(b: Seq<u8>, pos: int) -> Outcome<Seq<ExprModel>>
    decreases remaining(b, pos), 1nat,
{
    if !has_byte(b, pos, 40) {
        Outcome::Soft(fault(pos, Rule::Arguments, Expected::OpenParen))
    } else {
        match spec_items(b, pos + 1, Seq::empty()) {
            Outcome::Match(items, stop) => {
                let close = spaces_end(b, stop);
                if has_byte(b, close, 41) {
                    Outcome::Match(items, close + 1)
                } else {
                    Outcome::Hard(fault(close, Rule::Arguments, Expected::CloseParen))
                }
            },
            Outcome::Soft(f) => Outcome::Hard(fault_within(f, Rule::Arguments)),
            Outcome::Hard(f) => Outcome::Hard(fault_within(f, Rule::Arguments)),
        }
    }
}

/// The items of an argument list from `pos` on, behind those in `done`. The
/// list stops, without a fault, in front of what is no further item; a hard
/// fault inside an item is the list's. An item that consumed nothing would
/// stop the list too, but no expression does.
pub open spec fn spec_items(b: Seq<u8>, pos: int, done: Seq<ExprModel>) -> Outcome<
    Seq<ExprModel>,
>
    decreases remaining(b, pos), 4nat,
{
    match item_start(b, pos, done.len() == 0) {
        None => Outcome::Match(done, pos),
        Some(start) => {
            proof {
                lemma_item_start(b, pos, done.len() == 0);
            }
            match spec_expr(b, start) {
                Outcome::Match(item, end) => if pos < end <= b.len() {
                    spec_items(b, end, done.push(item))
                } else {
                    Outcome::Match(done, pos)
                },
                Outcome::Soft(_) => Outcome::Match(done, pos),
                Outcome::Hard(f) => Outcome::Hard(f),
            }
        },
    }
}

/// The parameters of a prototype from `pos` on, behind those in `done`, and
/// where they stop: in front of what is no further parameter.
pub open spec fn spec_parameters(b: Seq<u8>, pos: int, done: Seq<Seq<u8>>) -> (Seq<Seq<u8>>, int)
    decreases remaining(b, pos),
{
    match item_start(b, pos, done.len() == 0) {
        None => (done, pos),
        Some(start) => match spec_identifier(b, start) {
            Outcome::Match(name, end) => {
                proof {
                    lemma_item_start(b, pos, done.len() == 0);
                    lemma_identifier_bounds(b, start);
                }
                spec_parameters(b, end, done.push(name))
            },
            _ => (done, pos),
        },
    }
}

/// The prototype rule: an identifier, `(`, identifiers separated by commas,
/// `)`, with optional whitespace as in an argument list. Behind the `(` the
/// rule is committed.
pub open spec fn spec_prototype(b: Seq<u8>, pos: int) -> Outcome<PrototypeModel> {
    match spec_identifier(b, pos) {
        Outcome::Match(name, mid) => {
            if !has_byte(b, mid, 40) {
                Outcome::Soft(fault(mid, Rule::Prototype, Expected::OpenParen))
            } else {
                let (parameters, stop) = spec_parameters(b, mid + 1, Seq::empty());
                let close = spaces_end(b, stop);
                if has_byte(b, close, 41) {
                    Outcome::Match(PrototypeModel { name, parameters }, close + 1)
                } else {
                    Outcome::Hard(fault(close, Rule::Prototype, Expected::CloseParen))
                }
            }
        },
        Outcome::Soft(f) => Outcome::Soft(fault_within(f, Rule::Prototype)),
        Outcome::Hard(f) => Outcome::Hard(fault_within(f, Rule::Prototype)),
    }
}

/// The extern rule: the keyword, whitespace, a prototype. Behind the keyword
/// the rule is committed.
pub open spec fn spec_external(b: Seq<u8>, pos: int) -> Outcome<StatementModel> {
    if !starts_with(b, pos, keyword_extern()) {
        Outcome::Soft(fault(pos, Rule::Extern, Expected::ExternKeyword))
    } else {
        let gap = pos + 6;
        let start = spaces_end(b, gap);
        if start == gap {
            Outcome::Hard(fault(gap, Rule::Extern, Expected::Whitespace))
        } else {
            match spec_prototype(b, start) {
                Outcome::Match(prototype, end) => Outcome::Match(
                    StatementModel::Extern(prototype),
                    end,
                ),
                Outcome::Soft(f) => Outcome::Hard(fault_within(f, Rule::Extern)),
                Outcome::Hard(f) => Outcome::Hard(fault_within(f, Rule::Extern)),
            }
        }
    }
}

/// The function rule: the keyword `def`, whitespace, a prototype,
/// whitespace, the expression that is the body. Behind the keyword the rule
/// is committed.
pub open spec fn spec_function(b: Seq<u8>, pos: int) -> Outcome<StatementModel> {
    if !starts_with(b, pos, keyword_def()) {
        Outcome::Soft(fault(pos, Rule::Function, Expected::DefKeyword))
    } else {
        let gap = pos + 3;
        let start = spaces_end(b, gap);
        if start == gap {
            Outcome::Hard(fault(gap, Rule::Function, Expected::Whitespace))
        } else {
            match spec_prototype(b, start) {
                Outcome::Match(prototype, mid) => {
                    let body = spaces_end(b, mid);
                    if body == mid {
                        Outcome::Hard(fault(mid, Rule::Function, Expected::Whitespace))
                    } else {
                        match spec_expr(b, body) {
                            Outcome::Match(expr, end) => Outcome::Match(
                                StatementModel::Function(prototype, expr),
                                end,
                            ),
                            Outcome::Soft(f) => Outcome::Hard(fault_within(f, Rule::Function)),
                            Outcome::Hard(f) => Outcome::Hard(fault_within(f, Rule::Function)),
                        }
                    }
                },
                Outcome::Soft(f) => Outcome::Hard(fault_within(f, Rule::Function)),
                Outcome::Hard(f) => Outcome::Hard(fault_within(f, Rule::Function)),
            }
        }
    }
}

/// An expression, read as a statement.
pub open spec fn spec_expression_statement(b: Seq<u8>, pos: int) -> Outcome<StatementModel> {
    match spec_expr(b, pos) {
        Outcome::Match(expr, end) => Outcome::Match(StatementModel::Expression(expr), end),
        Outcome::Soft(f) => Outcome::Soft(f),
        Outcome::Hard(f) => Outcome::Hard(f),
    }
}

/// The statement rule: an extern declaration, else a function definition,
/// else an expression.
pub open spec fn spec_statement(b: Seq<u8>, pos: int) -> Outcome<StatementModel> {
    within(
        match spec_external(b, pos) {
            Outcome::Soft(_) => match spec_function(b, pos) {
                Outcome::Soft(_) => spec_expression_statement(b, pos),
                other => other,
            },
            other => other,
        },
        Rule::Statement,
    )
}

/// Where the next statement starts, if the sequence goes on at `pos`: at
/// `pos` for the first one, behind a run of separators for a later one.
pub open spec fn statement_start(b: Seq<u8>, pos: int, first: bool) -> Option<int> {
    if first {
        Some(pos)
    } else if has_class(b, pos, Class::Separator) {
        Some(run_end(b, pos, Class::Separator))
    } else {
        None
    }
}

/// The statements from `pos` on, behind those in `done`. The sequence stops,
/// without a fault, in front of what is no further statement; a hard fault
/// inside a statement is the sequence's.
pub open spec fn spec_statements(b: Seq<u8>, pos: int, done: Seq<StatementModel>) -> Outcome<
    Seq<StatementModel>,
>
    decreases remaining(b, pos),
{
    match statement_start(b, pos, done.len() == 0) {
        None => Outcome::Match(done, pos),
        Some(start) => match spec_statement(b, start) {
            Outcome::Match(statement, end) => {
                proof {
                    lemma_run_end(b, pos, Class::Separator);
                    lemma_statement_bounds(b, start);
                }
                spec_statements(b, end, done.push(statement))
            },
            Outcome::Soft(_) => Outcome::Match(done, pos),
            Outcome::Hard(f) => Outcome::Hard(fault_within(f, Rule::Statements)),
        },
    }
}

/// Where what may trail a program stops: the longer of the whitespace and
/// the run of separators that start at `pos`.
pub open spec fn trailer_end(b: Seq<u8>, pos: int) -> int {
    let spaces = run_end(b, pos, Class::Whitespace);
    let separators = run_end(b, pos, Class::Separator);
    if spaces >= separators {
        spaces
    } else {
        separators
    }
}

/// The program rule: optional whitespace, statements separated by runs of
/// separators, then one run of whitespace or of separators, then the end of
/// the input. An input without any statement is the empty program.
pub open spec fn spec_program(b: Seq<u8>) -> Result<Seq<StatementModel>, Fault> {
    match spec_statements(b, spaces_end(b, 0), Seq::empty()) {
        Outcome::Match(statements, stop) => {
            if trailer_end(b, stop) == b.len() {
                Ok(statements)
            } else {
                Err(fault(trailer_end(b, stop), Rule::Program, Expected::EndOfInput))
            }
        },
        Outcome::Soft(f) => Err(fault_within(f, Rule::Program)),
        Outcome::Hard(f) => Err(fault_within(f, Rule::Program)),
    }
}

/// An identifier is not empty, stops inside the input and is ASCII
/// throughout.
pub proof fn lemma_identifier_bounds(b: Seq<u8>, pos: int)
    ensures
        spec_identifier(b, pos) matches Outcome::Match(name, end) ==> {
            &&& 0 <= pos < end <= b.len()
            &&& name == b.subrange(pos, end)
            &&& forall|i: int| pos <= i < end ==> 0 <= i < b.len() && #[trigger] b[i] < 128
        },
{
    if let Outcome::Match(name, end) = spec_identifier(b, pos) {
        lemma_run_end(b, pos + 1, Class::Word);
        lemma_run_end(b, pos + 2, Class::Word);
        assert forall|i: int| pos <= i < end implies 0 <= i < b.len() && #[trigger] b[i]
            < 128 by {
            if i > pos + 1 || (i > pos && has_class(b, pos, Class::Letter)) {
                assert(has_class(b, i, Class::Word));
            }
        }
    }
}

/// The next item of a list starts at or behind where the list goes on, and
/// inside the input where that lies inside.
pub proof fn lemma_item_start(b: Seq<u8>, pos: int, first: bool)
    ensures
        item_start(b, pos, first) matches Some(start) ==> {
            &&& pos <= start
            &&& pos <= b.len() ==> start <= b.len()
            &&& !first ==> pos < start
        },
{
    lemma_run_end(b, pos, Class::Whitespace);
    lemma_run_end(b, spaces_end(b, pos) + 1, Class::Whitespace);
}

/// Every match of an expression rule is not empty and stops inside the
/// input.
pub proof fn lemma_expr_bounds(b: Seq<u8>, pos: int)
    ensures
        spec_expr(b, pos) matches Outcome::Match(_, end) ==> 0 <= pos < end <= b.len(),
        spec_call(b, pos) matches Outcome::Match(_, end) ==> 0 <= pos < end <= b.len(),
        spec_arguments(b, pos) matches Outcome::Match(_, end) ==> 0 <= pos < end <= b.len(),
        spec_number(b, pos) matches Outcome::Match(_, end) ==> 0 <= pos < end <= b.len(),
        spec_variable(b, pos) matches Outcome::Match(_, end) ==> 0 <= pos < end <= b.len(),
{
    lemma_identifier_bounds(b, pos);
    lemma_number_end(b, pos);
    if let Outcome::Match(_, mid) = spec_identifier(b, pos) {
        lemma_arguments_bounds(b, mid);
    }
    lemma_arguments_bounds(b, pos);
}

/// A match of the arguments rule is not empty and stops inside the input.
pub proof fn lemma_arguments_bounds(b: Seq<u8>, pos: int)
    ensures
        spec_arguments(b, pos) matches Outcome::Match(_, end) ==> 0 <= pos < end <= b.len(),
{
    if has_byte(b, pos, 40) {
        lemma_items_bounds(b, pos + 1, Seq::empty());
        if let Outcome::Match(_, stop) = spec_items(b, pos + 1, Seq::empty()) {
            lemma_run_end(b, stop, Class::Whitespace);
        }
    }
}

/// A list of items stops at or behind its start, inside the input where it
/// starts inside.
pub proof fn lemma_items_bounds(b: Seq<u8>, pos: int, done: Seq<ExprModel>)
    ensures
        spec_items(b, pos, done) matches Outcome::Match(_, stop) ==> pos <= stop && (pos
            <= b.len() ==> stop <= b.len()),
    decreases remaining(b, pos),
{
    if let Some(start) = item_start(b, pos, done.len() == 0) {
        if let Outcome::Match(item, end) = spec_expr(b, start) {
            if pos < end <= b.len() {
                lemma_items_bounds(b, end, done.push(item));
            }
        }
    }
}

/// A list of parameters stops at or behind its start, inside the input
/// where it starts inside.
pub proof fn lemma_parameters_bounds(b: Seq<u8>, pos: int, done: Seq<Seq<u8>>)
    ensures
        pos <= spec_parameters(b, pos, done).1,
        pos <= b.len() ==> spec_parameters(b, pos, done).1 <= b.len(),
    decreases remaining(b, pos),
{
    if let Some(start) = item_start(b, pos, done.len() == 0) {
        if let Outcome::Match(name, end) = spec_identifier(b, start) {
            lemma_item_start(b, pos, done.len() == 0);
            lemma_identifier_bounds(b, start);
            lemma_parameters_bounds(b, end, done.push(name));
        }
    }
}

/// A match of the prototype rule is not empty and stops inside the input.
pub proof fn lemma_prototype_bounds(b: Seq<u8>, pos: int)
    ensures
        spec_prototype(b, pos) matches Outcome::Match(_, end) ==> 0 <= pos < end <= b.len(),
{
    lemma_identifier_bounds(b, pos);
    if let Outcome::Match(_, mid) = spec_identifier(b, pos) {
        lemma_parameters_bounds(b, mid + 1, Seq::empty());
        lemma_run_end(b, spec_parameters(b, mid + 1, Seq::empty()).1, Class::Whitespace);
    }
}

/// A match of the statement rule is not empty and stops inside the input.
pub proof fn lemma_statement_bounds(b: Seq<u8>, pos: int)
    ensures
        spec_statement(b, pos) matches Outcome::Match(_, end) ==> 0 <= pos < end <= b.len(),
        spec_external(b, pos) matches Outcome::Match(_, end) ==> 0 <= pos < end <= b.len(),
        spec_function(b, pos) matches Outcome::Match(_, end) ==> 0 <= pos < end <= b.len(),
{
    lemma_expr_bounds(b, pos);
    lemma_run_end(b, pos + 6, Class::Whitespace);
    lemma_run_end(b, pos + 3, Class::Whitespace);
    lemma_prototype_bounds(b, spaces_end(b, pos + 6));
    lemma_prototype_bounds(b, spaces_end(b, pos + 3));
    if let Outcome::Match(_, mid) = spec_prototype(b, spaces_end(b, pos + 3)) {
        lemma_run_end(b, mid, Class::Whitespace);
        lemma_expr_bounds(b, spaces_end(b, mid));
    }
}

} // verus!
