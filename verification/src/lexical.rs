//! Character classes, runs of one class, and the two keywords.

use vstd::prelude::*;
use vstd::string::StringSliceAdditionalSpecFns;

verus! {

/// The classes of bytes that the grammar tells apart.
#[derive(Debug, PartialEq, Eq, Clone, Copy)]
pub enum Class {
    /// Space and newline.
    Whitespace,
    /// Semicolon and newline.
    Separator,
    /// `A` to `Z` and `a` to `z`.
    Letter,
    /// `0` to `9`.
    Digit,
    /// Letters, digits and the underscore: what may follow the start of an
    /// identifier.
    Word,
}

/// Whether `b` is an ASCII letter.
pub open spec fn is_letter(b: u8) -> bool {
    (65 <= b <= 90) || (97 <= b <= 122)
}

/// Whether `b` is an ASCII digit.
pub open spec fn is_digit(b: u8) -> bool {
    48 <= b <= 57
}

/// Whether byte `b` belongs to `class`.
pub open spec fn in_class(class: Class, b: u8) -> bool {
    match class {
        Class::Whitespace => b == 32 || b == 10,
        Class::Separator => b == 59 || b == 10,
        Class::Letter => is_letter(b),
        Class::Digit => is_digit(b),
        Class::Word => is_letter(b) || is_digit(b) || b == 95,
    }
}

/// Whether the input has the byte `x` at `pos`.
pub open spec fn has_byte(b: Seq<u8>, pos: int, x: u8) -> bool {
    0 <= pos < b.len() && b[pos] == x
}

/// Whether the input has a byte of `class` at `pos`.
pub open spec fn has_class(b: Seq<u8>, pos: int, class: Class) -> bool {
    0 <= pos < b.len() && in_class(class, b[pos])
}

/// Where the longest run of `class` bytes that starts at `pos` stops.
pub open spec fn run_end(b: Seq<u8>, pos: int, class: Class) -> int
    decreases b.len() - pos,
{
    if has_class(b, pos, class) {
        run_end(b, pos + 1, class)
    } else {
        pos
    }
}

/// Whether `word` stands in the input at `pos`.
pub open spec fn starts_with(b: Seq<u8>, pos: int, word: Seq<u8>) -> bool {
    0 <= pos && pos + word.len() <= b.len() && b.subrange(pos, pos + word.len()) == word
}

/// The bytes of `def`.
pub open spec fn keyword_def() -> Seq<u8> {
    seq![100u8, 101u8, 102u8]
}

/// The bytes of `extern`.
pub open spec fn keyword_extern() -> Seq<u8> {
    seq![101u8, 120u8, 116u8, 101u8, 114u8, 110u8]
}

/// A run stops at or behind its start, inside the input when it starts
/// there; all of it is of the class, and what stops it is not.
pub proof fn lemma_run_end(b: Seq<u8>, pos: int, class: Class)
    ensures
        pos <= run_end(b, pos, class),
        0 <= pos <= b.len() ==> run_end(b, pos, class) <= b.len(),
        forall|i: int| pos <= i < run_end(b, pos, class) ==> has_class(b, i, class),
        !has_class(b, run_end(b, pos, class), class),
    decreases b.len() - pos,
{
    if has_class(b, pos, class) {
        lemma_run_end(b, pos + 1, class);
    }
}

/// A run is settled by the first place at or behind its start where the
/// class stops.
pub proof fn lemma_run_end_is(b: Seq<u8>, pos: int, class: Class, end: int)
    requires
        pos <= end,
        forall|i: int| pos <= i < end ==> has_class(b, i, class),
        !has_class(b, end, class),
    ensures
        run_end(b, pos, class) == end,
    decreases end - pos,
{
    if pos < end {
        lemma_run_end_is(b, pos + 1, class, end);
    }
}

/// Decides whether `b` belongs to `class`.
pub fn class_has(class: Class, b: u8) -> (r: bool)
    ensures
        r == in_class(class, b),
{
    match class {
        Class::Whitespace => b == 32 || b == 10,
        Class::Separator => b == 59 || b == 10,
        Class::Letter => (65 <= b && b <= 90) || (97 <= b && b <= 122),
        Class::Digit => 48 <= b && b <= 57,
        Class::Word => (65 <= b && b <= 90) || (97 <= b && b <= 122) || (48 <= b && b <= 57)
            || b == 95,
    }
}

/// Whether the byte at `pos` is `x`.
pub fn byte_is(input: &str, pos: usize, x: u8) -> (r: bool)
    ensures
        r == has_byte(input.spec_bytes(), pos as int, x),
        input.spec_bytes().len() <= usize::MAX,
{
    let bytes = input.as_bytes();
    pos < bytes.len() && bytes[pos] == x
}

/// Whether the byte at `pos` belongs to `class`.
pub fn class_at(input: &str, pos: usize, class: Class) -> (r: bool)
    ensures
        r == has_class(input.spec_bytes(), pos as int, class),
        input.spec_bytes().len() <= usize::MAX,
{
    let bytes = input.as_bytes();
    pos < bytes.len() && class_has(class, bytes[pos])
}

/// Skips the longest run of `class` bytes from `pos` on.
pub fn skip_run(input: &str, pos: usize, class: Class) -> (end: usize)
    ensures
        end == run_end(input.spec_bytes(), pos as int, class),
        input.spec_bytes().len() <= usize::MAX,
{
    let bytes = input.as_bytes();
    let mut i: usize = pos;
    while i < bytes.len() && class_has(class, bytes[i])
        invariant
            bytes@ == input.spec_bytes(),
            pos <= i,
            run_end(bytes@, pos as int, class) == run_end(bytes@, i as int, class),
        decreases bytes.len() - i,
    {
        i = i + 1;
    }
    i
}

/// Whether `def` stands at `pos`.
pub fn at_def(input: &str, pos: usize) -> (r: bool)
    ensures
        r == starts_with(input.spec_bytes(), pos as int, keyword_def()),
        input.spec_bytes().len() <= usize::MAX,
{
    let bytes = input.as_bytes();
    let n = bytes.len();
    if pos <= n && n - pos >= 3 {
        let r = bytes[pos] == 100 && bytes[pos + 1] == 101 && bytes[pos + 2] == 102;
        proof {
            let part = bytes@.subrange(pos as int, pos + 3);
            assert(part[0] == bytes@[pos as int]);
            assert(part[1] == bytes@[pos + 1]);
            assert(part[2] == bytes@[pos + 2]);
            if r {
                assert(part =~= keyword_def());
            }
        }
        r
    } else {
        false
    }
}

/// Whether `extern` stands at `pos`.
pub fn at_extern(input: &str, pos: usize) -> (r: bool)
    ensures
        r == starts_with(input.spec_bytes(), pos as int, keyword_extern()),
        input.spec_bytes().len() <= usize::MAX,
{
    let bytes = input.as_bytes();
    let n = bytes.len();
    if pos <= n && n - pos >= 6 {
        let r = bytes[pos] == 101 && bytes[pos + 1] == 120 && bytes[pos + 2] == 116 && bytes[pos
            + 3] == 101 && bytes[pos + 4] == 114 && bytes[pos + 5] == 110;
        proof {
            let part = bytes@.subrange(pos as int, pos + 6);
            assert(part[0] == bytes@[pos as int]);
            assert(part[1] == bytes@[pos + 1]);
            assert(part[2] == bytes@[pos + 2]);
            assert(part[3] == bytes@[pos + 3]);
            assert(part[4] == bytes@[pos + 4]);
            assert(part[5] == bytes@[pos + 5]);
            if r {
                assert(part =~= keyword_extern());
            }
        }
        r
    } else {
        false
    }
}

} // verus!
