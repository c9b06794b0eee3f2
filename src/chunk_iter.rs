//! Cutting a text into a sequence of chunk-sized pieces.

use vstd::prelude::*;
use vstd::string::*;
use vstd::utf8::*;
use crate::boundary::{adjust_split_point, byte_len, lemma_boundary_shift};
use crate::chunk::RopeChunk;

verus! {

broadcast use {encode_utf8_valid_utf8, is_char_boundary_start_end_of_seq};

/// Where a cut aims, measured from its start, when `remaining` bytes are left
/// and they do not fit in one chunk: a full chunk, unless that would leave
/// less than the minimum behind, in which case exactly the minimum is left.
pub open spec fn cut_target(remaining: int, max: int, min: int) -> int {
    if remaining - max < min {
        remaining - min
    } else {
        max
    }
}

/// `to` is where the piece of `bytes` that starts at `from` ends: the whole
/// rest if it fits in `max` bytes, else the first codepoint boundary at or
/// after the target.
pub open spec fn is_next_cut(bytes: Seq<u8>, from: int, to: int, max: int, min: int) -> bool {
    let remaining = bytes.len() - from;
    if remaining <= max {
        to == bytes.len()
    } else {
        let t = from + cut_target(remaining, max, min);
        &&& t <= to <= bytes.len()
        &&& is_char_boundary(bytes, to)
        &&& forall|k: int| t <= k < to ==> !is_char_boundary(bytes, k)
    }
}

/// What is left after a cut is nothing or at least the smallest chunk.
pub open spec fn leaves_enough<const MAX: usize>(remaining: int) -> bool {
    remaining == 0 || remaining >= RopeChunk::<MAX>::spec_chunk_min()
}

/// The length of the next piece of `text` from byte `from` on.
pub fn next_cut<const MAX: usize>(text: &str, from: usize) -> (r: usize)
    requires
        RopeChunk::<MAX>::valid_profile(),
        is_char_boundary(text.spec_bytes(), from as int),
        from < text.spec_bytes().len(),
    ensures
        is_next_cut(
            text.spec_bytes(),
            from as int,
            from + r,
            RopeChunk::<MAX>::spec_max_bytes(),
            RopeChunk::<MAX>::spec_min_bytes(),
        ),
        is_char_boundary(text.spec_bytes(), from + r),
        0 < r <= text.spec_bytes().len() - from,
        r <= RopeChunk::<MAX>::spec_chunk_max(),
        from + r < text.spec_bytes().len() ==> r >= RopeChunk::<MAX>::spec_min_bytes(),
        leaves_enough::<MAX>(text.spec_bytes().len() - from - r),
{
    let ghost bytes = text.spec_bytes();
    let len = byte_len(text);
    let remaining = len - from;
    let max = RopeChunk::<MAX>::max_bytes();
    let min = RopeChunk::<MAX>::min_bytes();
    if remaining <= max {
        return remaining;
    }
    let target = if remaining - max < min {
        remaining - min
    } else {
        max
    };
    let (_, rest) = text.split_at(from);
    let r = adjust_split_point::<true>(rest, target);
    proof {
        lemma_boundary_shift(bytes, from as int, r as int);
        assert forall|k: int| from + target <= k < from + r implies !is_char_boundary(bytes, k) by {
            lemma_boundary_shift(bytes, from as int, k - from);
        }
    }
    r
}

/// Hands out a text piece by piece, each piece within the chunk bounds but
/// possibly the only one, and each cut on a codepoint boundary.
pub struct RopeChunkIter<'a, const MAX: usize> {
    text: &'a str,
    yielded: usize,
}

impl<'a, const MAX: usize> RopeChunkIter<'a, MAX> {
    /// The bytes of the whole text.
    pub closed spec fn text_bytes(&self) -> Seq<u8> {
        self.text.spec_bytes()
    }

    /// How many bytes were handed out.
    pub closed spec fn spec_yielded(&self) -> int {
        self.yielded as int
    }

    /// The handed-out part ends on a boundary, and unless nothing was handed
    /// out yet, what is left is nothing or at least the smallest chunk.
    pub open spec fn wf(&self) -> bool {
        &&& 0 <= self.spec_yielded() <= self.text_bytes().len()
        &&& is_char_boundary(self.text_bytes(), self.spec_yielded())
        &&& (self.spec_yielded() == 0 || leaves_enough::<MAX>(
            self.text_bytes().len() - self.spec_yielded(),
        ))
    }

    /// Starts cutting `text`.
    pub fn new(text: &'a str) -> (r: Self)
        ensures
            r.wf(),
            r.text_bytes() == text.spec_bytes(),
            r.spec_yielded() == 0,
    {
        RopeChunkIter { text, yielded: 0 }
    }

    /// The next piece, or `None` once the whole text was handed out.
    pub fn next(&mut self) -> (r: Option<&'a str>)
        requires
            RopeChunk::<MAX>::valid_profile(),
            old(self).wf(),
        ensures
            final(self).wf(),
            final(self).text_bytes() == old(self).text_bytes(),
            r is None <==> old(self).spec_yielded() == old(self).text_bytes().len(),
            r is None ==> final(self).spec_yielded() == old(self).spec_yielded(),
            r matches Some(c) ==> {
                &&& is_next_cut(
                    old(self).text_bytes(),
                    old(self).spec_yielded(),
                    final(self).spec_yielded(),
                    RopeChunk::<MAX>::spec_max_bytes(),
                    RopeChunk::<MAX>::spec_min_bytes(),
                )
                &&& c.spec_bytes() == old(self).text_bytes().subrange(
                    old(self).spec_yielded(),
                    final(self).spec_yielded(),
                )
                &&& 0 < c.spec_bytes().len() <= RopeChunk::<MAX>::spec_chunk_max()
                &&& (final(self).spec_yielded() < old(self).text_bytes().len()
                    ==> c.spec_bytes().len() >= RopeChunk::<MAX>::spec_min_bytes())
                &&& (old(self).spec_yielded() > 0 ==> c.spec_bytes().len()
                    >= RopeChunk::<MAX>::spec_chunk_min())
            },
    {
        let ghost bytes = self.text.spec_bytes();
        let len = byte_len(self.text);
        if self.yielded == len {
            return None;
        }
        let n = next_cut::<MAX>(self.text, self.yielded);
        let (_, rest) = self.text.split_at(self.yielded);
        proof {
            lemma_boundary_shift(bytes, self.yielded as int, n as int);
        }
        let (chunk, _) = rest.split_at(n);
        proof {
            assert(chunk.spec_bytes() =~= bytes.subrange(self.yielded as int, self.yielded + n));
        }
        self.yielded = self.yielded + n;
        Some(chunk)
    }

    /// Bounds on how many pieces are left.
    pub fn size_hint(&self) -> (r: (usize, Option<usize>))
        requires
            RopeChunk::<MAX>::valid_profile(),
            self.wf(),
        ensures
            r.0 == (self.text_bytes().len() - self.spec_yielded()) / (MAX as int),
            r.1 == Some((r.0 + 1) as usize),
    {
        let len = byte_len(self.text);
        let rem = len - self.yielded;
        let max = RopeChunk::<MAX>::max_bytes();
        let lo = rem / max;
        assert(lo * 2 <= rem) by (nonlinear_arith)
            requires
                lo == rem / max,
                max >= 2,
        ;
        (lo, Some(lo + 1))
    }
}

} // verus!
