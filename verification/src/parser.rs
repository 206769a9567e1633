//! The executable rules. Each computes the function of the same name in
//! `grammar`, on the bytes of the input and from a byte offset.

use vstd::prelude::*;
use vstd::string::StringSliceAdditionalSpecFns;
use crate::ast::{lemma_call_model, Expr, Program, Prototype, Statement};
use crate::diagnostics::{Expected, Failure, Outcome, Parsed, Rule};
use crate::grammar::{
    item_start, lemma_expr_bounds, lemma_identifier_bounds, lemma_item_start,
    lemma_statement_bounds, remaining, spaces_end, spec_arguments, spec_call, spec_expr,
    spec_external, spec_function, spec_identifier, spec_items, spec_parameters, spec_program,
    spec_prototype, spec_statement, spec_statements, spec_variable,
};
use crate::lexical::{
    at_def, at_extern, byte_is, class_at, has_byte, has_class, lemma_run_end, run_end, skip_run, Class,
};
use crate::model::{lemma_model_empty, lemma_model_push, Modeled};
use crate::number::number;
use crate::text::slice_text;

verus! {

/// Optional whitespace: skips spaces and newlines from `pos` on and returns
/// where they stop.
pub fn ws(input: &str, pos: usize) -> (end: usize)
    ensures
        end == spaces_end(input.spec_bytes(), pos as int),
        pos <= end,
        pos <= input.spec_bytes().len() ==> end <= input.spec_bytes().len(),
        input.spec_bytes().len() <= usize::MAX,
{
    proof {
        lemma_run_end(input.spec_bytes(), pos as int, Class::Whitespace);
    }
    skip_run(input, pos, Class::Whitespace)
}

/// Mandatory whitespace: where the spaces and newlines that start at `pos`
/// stop, if there is at least one.
pub fn ws1(input: &str, pos: usize) -> (r: Option<usize>)
    ensures
        match r {
            Some(end) => pos < end && end == spaces_end(input.spec_bytes(), pos as int) && end
                <= input.spec_bytes().len(),
            None => spaces_end(input.spec_bytes(), pos as int) == pos,
        },
{
    let end = ws(input, pos);
    proof {
        lemma_run_end(input.spec_bytes(), pos as int, Class::Whitespace);
    }
    if end > pos {
        Some(end)
    } else {
        None
    }
}

/// A separator run: where the semicolons and newlines that start at `pos`
/// stop, if there is at least one.
pub fn statement_separator(input: &str, pos: usize) -> (r: Option<usize>)
    ensures
        match r {
            Some(end) => {
                &&& has_class(input.spec_bytes(), pos as int, Class::Separator)
                &&& end == run_end(input.spec_bytes(), pos as int, Class::Separator)
                &&& pos < end <= input.spec_bytes().len()
            },
            None => !has_class(input.spec_bytes(), pos as int, Class::Separator),
        },
{
    if class_at(input, pos, Class::Separator) {
        proof {
            lemma_run_end(input.spec_bytes(), pos as int, Class::Separator);
        }
        Some(skip_run(input, pos, Class::Separator))
    } else {
        None
    }
}

/// Where the next item of a parenthesised list starts, if the list goes on
/// at `pos`.
pub fn list(input: &str, pos: usize, first: bool) -> (r: Option<usize>)
    ensures
        match r {
            Some(start) => item_start(input.spec_bytes(), pos as int, first) == Some(start as int),
            None => item_start(input.spec_bytes(), pos as int, first) is None,
        },
{
    let comma = ws(input, pos);
    if first {
        Some(comma)
    } else if byte_is(input, comma, 44) {
        Some(ws(input, comma + 1))
    } else {
        None
    }
}

/// The identifier rule at `pos`.
pub fn identifier(input: &str, pos: usize) -> (r: Parsed<String>)
    ensures
        r.model() == spec_identifier(input.spec_bytes(), pos as int),
{
    if at_def(input, pos) || at_extern(input, pos) {
        return Parsed::Soft(Failure::new(pos, Rule::Identifier, Expected::NonKeyword));
    }
    let tail = if class_at(input, pos, Class::Letter) {
        pos + 1
    } else if byte_is(input, pos, 95) && class_at(input, pos + 1, Class::Letter) {
        pos + 2
    } else {
        return Parsed::Soft(Failure::new(pos, Rule::Identifier, Expected::IdentifierStart));
    };
    let end = skip_run(input, tail, Class::Word);
    proof {
        lemma_identifier_bounds(input.spec_bytes(), pos as int);
    }
    Parsed::Matched(slice_text(input, pos, end), end)
}

/// The variable rule at `pos`.
pub fn variable(input: &str, pos: usize) -> (r: Parsed<Expr>)
    ensures
        r.model() == spec_variable(input.spec_bytes(), pos as int),
{
    match identifier(input, pos) {
        Parsed::Matched(name, end) => Parsed::Matched(Expr::Variable(name), end),
        Parsed::Soft(failure) => Parsed::Soft(failure.within(Rule::Variable)),
        Parsed::Hard(failure) => Parsed::Hard(failure.within(Rule::Variable)),
    }
}

/// The arguments rule at `pos`.
pub fn arguments(input: &str, pos: usize) -> (r: Parsed<Vec<Expr>>)
    ensures
        r.model() == spec_arguments(input.spec_bytes(), pos as int),
    decreases remaining(input.spec_bytes(), pos as int), 1nat,
{
    let ghost b = input.spec_bytes();
    if !byte_is(input, pos, 40) {
        return Parsed::Soft(Failure::new(pos, Rule::Arguments, Expected::OpenParen));
    }
    let mut items: Vec<Expr> = Vec::new();
    let mut at: usize = pos + 1;
    proof {
        lemma_model_empty(items);
    }
    loop
        invariant
            b == input.spec_bytes(),
            pos < at <= b.len() <= usize::MAX,
            has_byte(b, pos as int, 40),
            spec_items(b, pos + 1, Seq::empty()) == spec_items(b, at as int, items.model()),
            items.model().len() == items@.len(),
        ensures
            spec_items(b, pos + 1, Seq::empty()) == Outcome::Match(items.model(), at as int),
        decreases remaining(b, at as int),
    {
        let start = match list(input, at, items.len() == 0) {
            Some(start) => start,
            None => { break ; },
        };
        proof {
            lemma_item_start(b, at as int, items@.len() == 0);
            lemma_expr_bounds(b, start as int);
        }
        match expr(input, start) {
            Parsed::Matched(item, end) => {
                let ghost before = items;
                items.push(item);
                proof {
                    lemma_model_push(before, items, item);
                }
                at = end;
            },
            Parsed::Soft(_) => { break ; },
            Parsed::Hard(failure) => {
                return Parsed::Hard(failure.within(Rule::Arguments));
            },
        }
    }
    let close = ws(input, at);
    if byte_is(input, close, 41) {
        Parsed::Matched(items, close + 1)
    } else {
        Parsed::Hard(Failure::new(close, Rule::Arguments, Expected::CloseParen))
    }
}

/// The call rule at `pos`.
pub fn call(input: &str, pos: usize) -> (r: Parsed<Expr>)
    ensures
        r.model() == spec_call(input.spec_bytes(), pos as int),
    decreases remaining(input.spec_bytes(), pos as int), 2nat,
{
    match identifier(input, pos) {
        Parsed::Matched(callee, mid) => {
            proof {
                lemma_identifier_bounds(input.spec_bytes(), pos as int);
            }
            match arguments(input, mid) {
                Parsed::Matched(list, end) => {
                    proof {
                        lemma_call_model(callee, list);
                    }
                    Parsed::Matched(Expr::Call(callee, list), end)
                },
                Parsed::Soft(failure) => Parsed::Soft(failure.within(Rule::Call)),
                Parsed::Hard(failure) => Parsed::Hard(failure.within(Rule::Call)),
            }
        },
        Parsed::Soft(failure) => Parsed::Soft(failure.within(Rule::Call)),
        Parsed::Hard(failure) => Parsed::Hard(failure.within(Rule::Call)),
    }
}

/// The expression rule at `pos`.
pub fn expr(input: &str, pos: usize) -> (r: Parsed<Expr>)
    ensures
        r.model() == spec_expr(input.spec_bytes(), pos as int),
    decreases remaining(input.spec_bytes(), pos as int), 3nat,
{
    let first = call(input, pos);
    let chosen = match first {
        Parsed::Soft(_) => {
            let second = number(input, pos);
            match second {
                Parsed::Soft(_) => variable(input, pos),
                other => other,
            }
        },
        other => other,
    };
    chosen.within(Rule::Expression)
}

/// The prototype rule at `pos`.
pub fn prototype(input: &str, pos: usize) -> (r: Parsed<Prototype>)
    ensures
        r.model() == spec_prototype(input.spec_bytes(), pos as int),
{
    let ghost b = input.spec_bytes();
    let (name, mid) = match identifier(input, pos) {
        Parsed::Matched(name, mid) => (name, mid),
        Parsed::Soft(failure) => {
            return Parsed::Soft(failure.within(Rule::Prototype));
        },
        Parsed::Hard(failure) => {
            return Parsed::Hard(failure.within(Rule::Prototype));
        },
    };
    if !byte_is(input, mid, 40) {
        return Parsed::Soft(Failure::new(mid, Rule::Prototype, Expected::OpenParen));
    }
    let mut names: Vec<String> = Vec::new();
    let mut at: usize = mid + 1;
    proof {
        lemma_model_empty(names);
    }
    loop
        invariant
            b == input.spec_bytes(),
            mid < at <= b.len() <= usize::MAX,
            spec_parameters(b, mid + 1, Seq::empty()) == spec_parameters(
                b,
                at as int,
                names.model(),
            ),
            names.model().len() == names@.len(),
        ensures
            spec_parameters(b, mid + 1, Seq::empty()) == (names.model(), at as int),
        decreases remaining(b, at as int),
    {
        let start = match list(input, at, names.len() == 0) {
            Some(start) => start,
            None => { break ; },
        };
        proof {
            lemma_item_start(b, at as int, names@.len() == 0);
            lemma_identifier_bounds(b, start as int);
        }
        match identifier(input, start) {
            Parsed::Matched(parameter, end) => {
                let ghost before = names;
                names.push(parameter);
                proof {
                    lemma_model_push(before, names, parameter);
                }
                at = end;
            },
            _ => { break ; },
        }
    }
    let close = ws(input, at);
    if byte_is(input, close, 41) {
        Parsed::Matched(Prototype(name, names), close + 1)
    } else {
        Parsed::Hard(Failure::new(close, Rule::Prototype, Expected::CloseParen))
    }
}

/// The extern rule at `pos`.
pub fn external(input: &str, pos: usize) -> (r: Parsed<Statement>)
    ensures
        r.model() == spec_external(input.spec_bytes(), pos as int),
{
    if !at_extern(input, pos) {
        return Parsed::Soft(Failure::new(pos, Rule::Extern, Expected::ExternKeyword));
    }
    let gap = pos + 6;
    match ws1(input, gap) {
        None => Parsed::Hard(Failure::new(gap, Rule::Extern, Expected::Whitespace)),
        Some(start) => match prototype(input, start) {
            Parsed::Matched(declared, end) => Parsed::Matched(Statement::Extern(declared), end),
            Parsed::Soft(failure) => Parsed::Hard(failure.within(Rule::Extern)),
            Parsed::Hard(failure) => Parsed::Hard(failure.within(Rule::Extern)),
        },
    }
}

/// The function rule at `pos`.
pub fn function(input: &str, pos: usize) -> (r: Parsed<Statement>)
    ensures
        r.model() == spec_function(input.spec_bytes(), pos as int),
{
    if !at_def(input, pos) {
        return Parsed::Soft(Failure::new(pos, Rule::Function, Expected::DefKeyword));
    }
    let gap = pos + 3;
    let start = match ws1(input, gap) {
        Some(start) => start,
        None => {
            return Parsed::Hard(Failure::new(gap, Rule::Function, Expected::Whitespace));
        },
    };
    let (declared, mid) = match prototype(input, start) {
        Parsed::Matched(declared, mid) => (declared, mid),
        Parsed::Soft(failure) => {
            return Parsed::Hard(failure.within(Rule::Function));
        },
        Parsed::Hard(failure) => {
            return Parsed::Hard(failure.within(Rule::Function));
        },
    };
    let body = match ws1(input, mid) {
        Some(body) => body,
        None => {
            return Parsed::Hard(Failure::new(mid, Rule::Function, Expected::Whitespace));
        },
    };
    match expr(input, body) {
        Parsed::Matched(value, end) => Parsed::Matched(Statement::Function(declared, value), end),
        Parsed::Soft(failure) => Parsed::Hard(failure.within(Rule::Function)),
        Parsed::Hard(failure) => Parsed::Hard(failure.within(Rule::Function)),
    }
}

/// The statement rule at `pos`.
pub fn statement(input: &str, pos: usize) -> (r: Parsed<Statement>)
    ensures
        r.model() == spec_statement(input.spec_bytes(), pos as int),
{
    let first = external(input, pos);
    let chosen = match first {
        Parsed::Soft(_) => {
            let second = function(input, pos);
            match second {
                Parsed::Soft(_) => {
                    let third = expr(input, pos);
                    match third {
                        Parsed::Matched(value, end) => Parsed::Matched(
                            Statement::Expression(value),
                            end,
                        ),
                        Parsed::Soft(failure) => Parsed::Soft(failure),
                        Parsed::Hard(failure) => Parsed::Hard(failure),
                    }
                },
                other => other,
            }
        },
        other => other,
    };
    chosen.within(Rule::Statement)
}

/// The statements from `pos` on, separated by runs of separators.
pub fn statements(input: &str, pos: usize) -> (r: Parsed<Vec<Statement>>)
    ensures
        r.model() == spec_statements(input.spec_bytes(), pos as int, Seq::empty()),
{
    let ghost b = input.spec_bytes();
    let mut list: Vec<Statement> = Vec::new();
    let mut at: usize = pos;
    proof {
        lemma_model_empty(list);
    }
    loop
        invariant
            b == input.spec_bytes(),
            pos <= at,
            spec_statements(b, pos as int, Seq::empty()) == spec_statements(
                b,
                at as int,
                list.model(),
            ),
            list.model().len() == list@.len(),
        ensures
            spec_statements(b, pos as int, Seq::empty()) == Outcome::Match(
                list.model(),
                at as int,
            ),
        decreases remaining(b, at as int),
    {
        let start = if list.len() == 0 {
            at
        } else {
            match statement_separator(input, at) {
                Some(start) => start,
                None => { break ; },
            }
        };
        proof {
            lemma_statement_bounds(b, start as int);
        }
        match statement(input, start) {
            Parsed::Matched(item, end) => {
                let ghost before = list;
                list.push(item);
                proof {
                    lemma_model_push(before, list, item);
                }
                at = end;
            },
            Parsed::Soft(_) => { break ; },
            Parsed::Hard(failure) => {
                return Parsed::Hard(failure.within(Rule::Statements));
            },
        }
    }
    Parsed::Matched(list, at)
}

/// Parses a whole program.
///
/// Succeeds exactly where the input is optional whitespace, statements
/// separated by runs of separators, and at most one trailing run of
/// whitespace or of separators; the statements come in source order. Any
/// failure is final and says where, within which rules, and what was
/// expected.
pub fn parse(input: &str) -> (r: Result<Program, Failure>)
    ensures
        r.model() == spec_program(input.spec_bytes()),
{
    let start = ws(input, 0);
    match statements(input, start) {
        Parsed::Matched(list, stop) => {
            let spaces = skip_run(input, stop, Class::Whitespace);
            let separators = skip_run(input, stop, Class::Separator);
            let end = if spaces >= separators {
                spaces
            } else {
                separators
            };
            if end == input.as_bytes().len() {
                Ok(Program(list))
            } else {
                Err(Failure::new(end, Rule::Program, Expected::EndOfInput))
            }
        },
        Parsed::Soft(failure) => Err(failure.within(Rule::Program)),
        Parsed::Hard(failure) => Err(failure.within(Rule::Program)),
    }
}

} // verus!
