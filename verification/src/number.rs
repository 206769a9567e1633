//! Numeric literals: where one stops, and what double it denotes.

use vstd::prelude::*;
use vstd::string::StringSliceAdditionalSpecFns;
use vstd::slice::slice_subrange;
use crate::ast::{Expr, ExprModel};
use crate::diagnostics::{fault, Expected, Failure, Outcome, Parsed, Rule};
use crate::lexical::{
    byte_is, class_at, has_byte, has_class, lemma_run_end, lemma_run_end_is, run_end, skip_run,
    Class,
};
use crate::model::Modeled;

verus! {

/// What `nom::number::complete::double` makes of a piece of text: nothing,
/// or the number of bytes that it left unread and the bit pattern of the
/// double that it read. The converter finds the longest literal of its own
/// grammar at the front of the text and hands it to the standard library's
/// decimal-to-double conversion, so the result depends on the text alone.
pub uninterp spec fn double_of(text: Seq<u8>) -> Option<(usize, u64)>;

/// Where a fraction that starts at `pos` stops, or `pos` where there is
/// none. A fraction is a dot and digits.
pub open spec fn fraction_end(b: Seq<u8>, pos: int) -> int {
    if has_byte(b, pos, 46) && has_class(b, pos + 1, Class::Digit) {
        run_end(b, pos + 1, Class::Digit)
    } else {
        pos
    }
}

/// Where an exponent that starts at `pos` stops, or `pos` where there is
/// none. An exponent is `e` or `E`, an optional sign, and digits.
pub open spec fn exponent_end(b: Seq<u8>, pos: int) -> int {
    if has_byte(b, pos, 101) || has_byte(b, pos, 69) {
        let digits = if has_byte(b, pos + 1, 43) || has_byte(b, pos + 1, 45) {
            pos + 2
        } else {
            pos + 1
        };
        if has_class(b, digits, Class::Digit) {
            run_end(b, digits, Class::Digit)
        } else {
            pos
        }
    } else {
        pos
    }
}

/// Where the numeric literal that starts at `pos` stops, if one starts
/// there: an optional minus, digits, an optional fraction, an optional
/// exponent.
pub open spec fn number_end(b: Seq<u8>, pos: int) -> Option<int> {
    let digits = if has_byte(b, pos, 45) {
        pos + 1
    } else {
        pos
    };
    if has_class(b, digits, Class::Digit) {
        Some(exponent_end(b, fraction_end(b, run_end(b, digits, Class::Digit))))
    } else {
        None
    }
}

/// Whether `t` is a numeric literal, all of it.
pub open spec fn is_literal(t: Seq<u8>) -> bool {
    number_end(t, 0) == Some(t.len() as int)
}

/// The outcome of the number rule at `pos`, given where the literal stops
/// and what the converter made of it.
pub open spec fn number_outcome(
    pos: int,
    end: Option<int>,
    converted: Option<(usize, u64)>,
) -> Outcome<ExprModel> {
    match end {
        None => Outcome::Soft(fault(pos, Rule::Number, Expected::Digit)),
        Some(e) => match converted {
            Some((0, bits)) => Outcome::Match(ExprModel::Number(bits), e),
            _ => Outcome::Soft(fault(pos, Rule::Number, Expected::NumericValue)),
        },
    }
}

/// The number rule: a literal, converted whole.
pub open spec fn spec_number(b: Seq<u8>, pos: int) -> Outcome<ExprModel> {
    match number_end(b, pos) {
        None => number_outcome(pos, None, None),
        Some(e) => number_outcome(pos, Some(e), double_of(b.subrange(pos, e))),
    }
}

/// A literal is not empty, stops inside the input, and is ASCII throughout.
pub proof fn lemma_number_end(b: Seq<u8>, pos: int)
    ensures
        number_end(b, pos) matches Some(e) ==> 0 <= pos < e <= b.len(),
        number_end(b, pos) matches Some(e) ==> forall|i: int|
            pos <= i < e ==> 0 <= i < b.len() && #[trigger] b[i] < 128,
{
    if let Some(e) = number_end(b, pos) {
        let digits = if has_byte(b, pos, 45) {
            pos + 1
        } else {
            pos
        };
        let whole = run_end(b, digits, Class::Digit);
        let frac = fraction_end(b, whole);
        let exp = if has_byte(b, frac + 1, 43) || has_byte(b, frac + 1, 45) {
            frac + 2
        } else {
            frac + 1
        };
        lemma_run_end(b, digits, Class::Digit);
        lemma_run_end(b, whole + 1, Class::Digit);
        lemma_run_end(b, exp, Class::Digit);
        assert forall|i: int| pos <= i < e implies 0 <= i < b.len() && #[trigger] b[i] < 128 by {
            if i < digits {
            } else if i < whole {
                assert(has_class(b, i, Class::Digit));
            } else if i < frac {
                if i > whole {
                    assert(has_class(b, i, Class::Digit));
                }
            } else if i >= exp {
                assert(has_class(b, i, Class::Digit));
            }
        }
    }
}

/// A run that stops inside a piece of the input is the same run in the
/// piece alone.
proof fn lemma_run_end_in_piece(b: Seq<u8>, pos: int, end: int, start: int, class: Class)
    requires
        0 <= pos <= start <= end <= b.len(),
        run_end(b, start, class) <= end,
    ensures
        run_end(b.subrange(pos, end), start - pos, class) == run_end(b, start, class) - pos,
{
    let t = b.subrange(pos, end);
    let stop = run_end(b, start, class);
    lemma_run_end(b, start, class);
    assert forall|i: int| start - pos <= i < stop - pos implies has_class(t, i, class) by {
        assert(t[i] == b[i + pos]);
        assert(has_class(b, i + pos, class));
    }
    if stop < end {
        assert(t[stop - pos] == b[stop]);
    }
    lemma_run_end_is(t, start - pos, class, stop - pos);
}

/// The literal that the grammar finds in the input is a literal by itself.
pub proof fn lemma_literal_piece(b: Seq<u8>, pos: int)
    ensures
        number_end(b, pos) matches Some(e) ==> is_literal(b.subrange(pos, e)),
{
    if let Some(e) = number_end(b, pos) {
        lemma_number_end(b, pos);
        let t = b.subrange(pos, e);
        let digits = if has_byte(b, pos, 45) {
            pos + 1
        } else {
            pos
        };
        let whole = run_end(b, digits, Class::Digit);
        let frac = fraction_end(b, whole);
        let exp = if has_byte(b, frac + 1, 43) || has_byte(b, frac + 1, 45) {
            frac + 2
        } else {
            frac + 1
        };
        lemma_run_end(b, digits, Class::Digit);
        lemma_run_end(b, whole + 1, Class::Digit);
        lemma_run_end(b, exp, Class::Digit);
        assert forall|i: int| 0 <= i < t.len() implies t[i] == b[pos + i] by {}
        lemma_run_end_in_piece(b, pos, e, digits, Class::Digit);
        assert(run_end(t, digits - pos, Class::Digit) == whole - pos);
        if frac != whole {
            lemma_run_end_in_piece(b, pos, e, whole + 1, Class::Digit);
        }
        assert(fraction_end(t, whole - pos) == frac - pos);
        if e != frac {
            lemma_run_end_in_piece(b, pos, e, exp, Class::Digit);
        }
        assert(exponent_end(t, frac - pos) == e - pos);
    }
}

/// Calls `nom::number::complete::double` on a numeric literal. The contract
/// says only that the result is a function of the text: how many bytes the
/// converter left unread and the bits of the double it read, or nothing
/// where it refused.
#[verifier::external_body]
fn convert_double(text: &[u8]) -> (r: Option<(usize, u64)>)
    requires
        is_literal(text@),
    ensures
        r == double_of(text@),
{
    match nom::number::complete::double::<&[u8], (&[u8], nom::error::ErrorKind)>(text) {
        Ok((rest, value)) => Some((rest.len(), value.to_bits())),
        Err(_) => None,
    }
}

/// Finds where the numeric literal that starts at `pos` stops.
pub fn literal_end(input: &str, pos: usize) -> (r: Option<usize>)
    ensures
        match r {
            Some(e) => number_end(input.spec_bytes(), pos as int) == Some(e as int),
            None => number_end(input.spec_bytes(), pos as int) is None,
        },
{
    let ghost b = input.spec_bytes();
    let digits = if byte_is(input, pos, 45) {
        pos + 1
    } else {
        pos
    };
    if !class_at(input, digits, Class::Digit) {
        return None;
    }
    let whole = skip_run(input, digits, Class::Digit);
    proof {
        lemma_run_end(b, digits as int, Class::Digit);
    }
    let frac = if byte_is(input, whole, 46) && class_at(input, whole + 1, Class::Digit) {
        proof {
            lemma_run_end(b, whole + 1, Class::Digit);
        }
        skip_run(input, whole + 1, Class::Digit)
    } else {
        whole
    };
    let end = if byte_is(input, frac, 101) || byte_is(input, frac, 69) {
        let exp = if byte_is(input, frac + 1, 43) || byte_is(input, frac + 1, 45) {
            frac + 2
        } else {
            frac + 1
        };
        if class_at(input, exp, Class::Digit) {
            skip_run(input, exp, Class::Digit)
        } else {
            frac
        }
    } else {
        frac
    };
    Some(end)
}

/// Decides the number rule at `pos` from where the literal stops and what
/// the converter made of it.
pub fn number_from(pos: usize, end: Option<usize>, converted: Option<(usize, u64)>) -> (r: Parsed<
    Expr,
>)
    ensures
        r.model() == number_outcome(
            pos as int,
            match end {
                Some(e) => Some(e as int),
                None => None,
            },
            converted,
        ),
{
    match end {
        None => Parsed::Soft(Failure::new(pos, Rule::Number, Expected::Digit)),
        Some(e) => match converted {
            Some((rest, bits)) => {
                if rest == 0 {
                    Parsed::Matched(Expr::Number(bits), e)
                } else {
                    Parsed::Soft(Failure::new(pos, Rule::Number, Expected::NumericValue))
                }
            },
            None => Parsed::Soft(Failure::new(pos, Rule::Number, Expected::NumericValue)),
        },
    }
}

/// The number rule at `pos`: finds the literal, and has it converted to the
/// bits of a double.
pub fn number(input: &str, pos: usize) -> (r: Parsed<Expr>)
    ensures
        r.model() == spec_number(input.spec_bytes(), pos as int),
{
    match literal_end(input, pos) {
        None => number_from(pos, None, None),
        Some(e) => {
            proof {
                lemma_number_end(input.spec_bytes(), pos as int);
                lemma_literal_piece(input.spec_bytes(), pos as int);
            }
            let text = slice_subrange(input.as_bytes(), pos, e);
            number_from(pos, Some(e), convert_double(text))
        },
    }
}

} // verus!
