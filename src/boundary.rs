//! Codepoint boundaries of UTF-8 text and how cut points are moved onto them.

use vstd::prelude::*;
use vstd::string::*;
use vstd::utf8::*;

verus! {

broadcast use {encode_utf8_valid_utf8, is_char_boundary_start_end_of_seq};

/// The UTF-8 encoding of a concatenation is the concatenation of the encodings.
pub proof fn lemma_encode_concat(a: Seq<char>, b: Seq<char>)
    ensures
        encode_utf8(a + b) == encode_utf8(a) + encode_utf8(b),
    decreases a.len(),
{
    if a.len() == 0 {
        assert(a + b =~= b);
        assert(encode_utf8(a) + encode_utf8(b) =~= encode_utf8(b));
    } else {
        assert((a + b).drop_first() =~= a.drop_first() + b);
        assert((a + b)[0] == a[0]);
        lemma_encode_concat(a.drop_first(), b);
        assert(encode_utf8(a + b) =~= encode_utf8(a) + encode_utf8(b));
    }
}

/// In valid UTF-8 a codepoint boundary is never more than three bytes ahead.
pub proof fn lemma_next_boundary(bytes: Seq<u8>, i: int) -> (j: int)
    requires
        valid_utf8(bytes),
        0 <= i <= bytes.len(),
    ensures
        i <= j <= i + 3,
        j <= bytes.len(),
        is_char_boundary(bytes, j),
    decreases bytes.len(),
{
    if i == 0 || i == bytes.len() {
        i
    } else {
        let k = length_of_first_scalar(bytes);
        let rest = pop_first_scalar(bytes);
        assert(1 <= k <= 4);
        assert(rest.len() == bytes.len() - k);
        if i <= k {
            assert(is_char_boundary(rest, 0));
            assert(is_char_boundary(bytes, k));
            k
        } else {
            let j0 = lemma_next_boundary(rest, i - k);
            assert(is_char_boundary(bytes, j0 + k));
            j0 + k
        }
    }
}

/// Past a codepoint boundary `from`, the boundaries of the rest of the text
/// are those of the whole text, shifted by `from`.
pub proof fn lemma_boundary_shift(bytes: Seq<u8>, from: int, k: int)
    requires
        valid_utf8(bytes),
        is_char_boundary(bytes, from),
        0 <= from <= bytes.len(),
        0 <= k <= bytes.len() - from,
    ensures
        valid_utf8(bytes.subrange(from, bytes.len() as int)),
        is_char_boundary(bytes.subrange(from, bytes.len() as int), k) <==> is_char_boundary(
            bytes,
            from + k,
        ),
{
    let rest = bytes.subrange(from, bytes.len() as int);
    valid_utf8_split(bytes, from);
    if k < rest.len() {
        is_char_boundary_iff_not_is_continuation_byte(rest, k);
        is_char_boundary_iff_not_is_continuation_byte(bytes, from + k);
    } else {
        is_char_boundary_start_end_of_seq(rest);
    }
}

/// Up to a codepoint boundary `end`, the boundaries of the first part of the
/// text are those of the whole text.
pub proof fn lemma_boundary_prefix(bytes: Seq<u8>, end: int, k: int)
    requires
        valid_utf8(bytes),
        is_char_boundary(bytes, end),
        0 <= k <= end <= bytes.len(),
    ensures
        valid_utf8(bytes.subrange(0, end)),
        is_char_boundary(bytes.subrange(0, end), k) <==> is_char_boundary(bytes, k),
{
    let head = bytes.subrange(0, end);
    valid_utf8_split(bytes, end);
    if k < end {
        is_char_boundary_iff_not_is_continuation_byte(head, k);
        is_char_boundary_iff_not_is_continuation_byte(bytes, k);
    } else {
        is_char_boundary_start_end_of_seq(head);
    }
}

/// The length of `s` in bytes.
pub fn byte_len(s: &str) -> (n: usize)
    ensures
        n == s.spec_bytes().len(),
{
    broadcast use vstd::slice::axiom_spec_len;

    s.as_bytes().len()
}

/// `r` is `at` moved forward onto the nearest codepoint boundary.
pub open spec fn is_rounded_up(bytes: Seq<u8>, at: int, r: int) -> bool {
    &&& at <= r <= bytes.len()
    &&& is_char_boundary(bytes, r)
    &&& forall|k: int| at <= k < r ==> !is_char_boundary(bytes, k)
}

/// `r` is `at` moved backward onto the nearest codepoint boundary.
pub open spec fn is_rounded_down(bytes: Seq<u8>, at: int, r: int) -> bool {
    &&& 0 <= r <= at
    &&& is_char_boundary(bytes, r)
    &&& forall|k: int| r < k <= at ==> !is_char_boundary(bytes, k)
}

/// In valid UTF-8 a codepoint boundary is never more than three bytes back.
pub proof fn lemma_prev_boundary(bytes: Seq<u8>, i: int) -> (j: int)
    requires
        valid_utf8(bytes),
        0 <= i <= bytes.len(),
    ensures
        i - 3 <= j <= i,
        0 <= j,
        is_char_boundary(bytes, j),
{
    if i < 3 {
        if is_char_boundary(bytes, i) {
            i
        } else if i >= 1 && is_char_boundary(bytes, i - 1) {
            i - 1
        } else if i >= 2 && is_char_boundary(bytes, i - 2) {
            i - 2
        } else {
            0
        }
    } else {
        let j0 = lemma_next_boundary(bytes, i - 3);
        if j0 <= i {
            j0
        } else {
            i
        }
    }
}

/// Moves the cut point `at` of `s` onto a codepoint boundary, forward when
/// `ROUND_UP` (the part before the cut never shrinks) and backward otherwise
/// (the part after the cut never shrinks). It moves by three bytes at most.
pub fn adjust_split_point<const ROUND_UP: bool>(s: &str, at: usize) -> (r: usize)
    requires
        at <= s.spec_bytes().len(),
    ensures
        ROUND_UP ==> is_rounded_up(s.spec_bytes(), at as int, r as int) && r <= at + 3,
        !ROUND_UP ==> is_rounded_down(s.spec_bytes(), at as int, r as int) && at <= r + 3,
{
    let ghost bytes = s.spec_bytes();
    let n = byte_len(s);
    let mut p: usize = at;
    if ROUND_UP {
        let ghost j = lemma_next_boundary(bytes, at as int);
        while !s.is_char_boundary(p)
            invariant
                at <= p <= j,
                forall|k: int| at <= k < p ==> !is_char_boundary(bytes, k),
                j <= bytes.len(),
                is_char_boundary(bytes, j),
                bytes == s.spec_bytes(),
                bytes.len() == n,
            decreases j - p,
        {
            p = p + 1;
        }
    } else {
        let ghost j = lemma_prev_boundary(bytes, at as int);
        while !s.is_char_boundary(p)
            invariant
                j <= p <= at,
                forall|k: int| p < k <= at ==> !is_char_boundary(bytes, k),
                0 <= j,
                is_char_boundary(bytes, j),
                bytes == s.spec_bytes(),
                at <= bytes.len(),
            decreases p - j,
        {
            p = p - 1;
        }
    }
    p
}

} // verus!
