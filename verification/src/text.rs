//! Cutting a piece of ASCII text out of the input.

use vstd::prelude::*;
use vstd::string::StringSliceAdditionalSpecFns;
use vstd::utf8::{
    encode_utf8, is_char_boundary, is_leading_byte_width_1, length_of_first_scalar,
    pop_first_scalar, valid_utf8,
};
use crate::model::Modeled;

verus! {

/// Whether all bytes of the input from `start` up to `end` are ASCII.
pub open spec fn ascii_between(b: Seq<u8>, start: int, end: int) -> bool {
    forall|i: int| start <= i < end ==> 0 <= i < b.len() && #[trigger] b[i] < 128
}

/// In valid UTF-8, the place behind a leading run of ASCII bytes is a
/// character boundary.
pub proof fn lemma_ascii_prefix_boundary(b: Seq<u8>, n: int)
    requires
        valid_utf8(b),
        0 <= n <= b.len(),
        ascii_between(b, 0, n),
    ensures
        is_char_boundary(b, n),
    decreases n,
{
    if n > 0 {
        assert(b[0] < 128);
        assert(is_leading_byte_width_1(b[0]));
        assert(length_of_first_scalar(b) == 1);
        let rest = pop_first_scalar(b);
        assert(rest == b.subrange(1, b.len() as int));
        assert forall|i: int| 0 <= i < n - 1 implies 0 <= i < rest.len() && #[trigger] rest[i]
            < 128 by {
            assert(rest[i] == b[i + 1]);
            assert(b[i + 1] < 128);
        }
        reveal_with_fuel(valid_utf8, 2);
        lemma_ascii_prefix_boundary(rest, n - 1);
        reveal_with_fuel(is_char_boundary, 2);
    }
}

/// Copies the bytes of the input from `start` up to `end` into a string.
pub(crate) fn slice_text(input: &str, start: usize, end: usize) -> (r: String)
    requires
        start <= end <= input.spec_bytes().len(),
        ascii_between(input.spec_bytes(), start as int, end as int),
    ensures
        r.model() == input.spec_bytes().subrange(start as int, end as int),
{
    broadcast use vstd::utf8::group_utf8_lib;

    let ghost b = input.spec_bytes();
    if start == end {
        let r = String::new();
        assert(r.model() =~= b.subrange(start as int, end as int)) by {
            reveal_with_fuel(encode_utf8, 1);
        }
        return r;
    }
    proof {
        assert(valid_utf8(b));
        assert(b[start as int] < 128);
        assert(is_leading_byte_width_1(b[start as int]));
        vstd::utf8::is_char_boundary_iff_is_leading_byte(b, start as int);
    }
    let (_, tail) = input.split_at(start);
    let ghost t = tail.spec_bytes();
    proof {
        vstd::utf8::valid_utf8_split(b, start as int);
        assert(t == b.subrange(start as int, b.len() as int));
        assert forall|i: int| 0 <= i < end - start implies 0 <= i < t.len() && #[trigger] t[i]
            < 128 by {
            assert(t[i] == b[start + i]);
            assert(b[start + i] < 128);
        }
        lemma_ascii_prefix_boundary(t, end - start);
    }
    let (piece, _) = tail.split_at(end - start);
    proof {
        assert(piece.spec_bytes() =~= b.subrange(start as int, end as int));
    }
    piece.to_owned()
}

} // verus!
