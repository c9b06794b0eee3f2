//! The owned text chunk that a rope keeps in its leaves.

use vstd::prelude::*;
use vstd::string::*;
use vstd::utf8::*;
use crate::boundary::{
    adjust_split_point, byte_len, is_rounded_down, is_rounded_up, lemma_boundary_prefix,
    lemma_encode_concat,
};
use crate::chunk_iter::leaves_enough;
use crate::extra_leaves::{concat_views, is_chunking, opt_chunk_bytes, ExtraLeaves};
use crate::slice::ChunkSlice;
use crate::summary::{
    lemma_count_lf_concat, lemma_count_lf_le_len, summarize_str, ChunkSummary,
};

verus! {

broadcast use {encode_utf8_valid_utf8, is_char_boundary_start_end_of_seq};

/// Relies on `String::with_capacity`: a new, empty string with room reserved
/// for `n` bytes.
#[verifier::external_body]
fn string_with_capacity(n: usize) -> (r: String)
    ensures
        r@.len() == 0,
{
    String::with_capacity(n)
}

/// The bytes of the second chunk of a balanced pair, if there is one.
pub open spec fn opt_bytes<const MAX: usize>(o: Option<(RopeChunk<MAX>, ChunkSummary)>) -> Seq<u8> {
    match o {
        Some(p) => p.0@,
        None => Seq::empty(),
    }
}

/// `b` with the bytes in `[start, end)` replaced by `s`.
pub open spec fn replaced(b: Seq<u8>, start: int, end: int, s: Seq<u8>) -> Seq<u8> {
    b.subrange(0, start) + s + b.subrange(end, b.len() as int)
}

/// An owned run of UTF-8 text. `MAX` is the number of bytes a chunk should
/// aim to stay under; the bounds every chunk keeps are derived from it.
#[derive(Clone, Debug)]
pub struct RopeChunk<const MAX: usize> {
    pub text: String,
}

impl<const MAX: usize> View for RopeChunk<MAX> {
    type V = Seq<u8>;

    /// The bytes of the text.
    open spec fn view(&self) -> Seq<u8> {
        encode_utf8(self.text@)
    }
}

impl<const MAX: usize> RopeChunk<MAX> {
    /// The size profile is usable: room for a four-byte codepoint, and
    /// sizes far from overflow.
    pub open spec fn valid_profile() -> bool {
        4 <= MAX <= 0x4000_0000
    }

    pub open spec fn spec_max_bytes() -> int {
        MAX as int
    }

    pub open spec fn spec_min_bytes() -> int {
        MAX as int / 2
    }

    pub open spec fn spec_chunk_max() -> int {
        MAX as int + 3
    }

    pub open spec fn spec_chunk_min() -> int {
        if Self::spec_min_bytes() > 3 {
            Self::spec_min_bytes() - 3
        } else {
            1
        }
    }

    /// The length lies within the bounds every chunk with a later sibling keeps.
    pub open spec fn within_bounds(b: Seq<u8>) -> bool {
        Self::spec_chunk_min() <= b.len() <= Self::spec_chunk_max()
    }

    /// An empty chunk with room for a full chunk reserved.
    pub fn default() -> (r: Self)
        requires
            Self::valid_profile(),
        ensures
            r@.len() == 0,
    {
        RopeChunk { text: string_with_capacity(Self::chunk_max()) }
    }

    /// The number of bytes chunks always stay under. It exceeds the aim by
    /// three, which happens when a cut lands just after the first byte of a
    /// four-byte codepoint and is moved onto the next boundary.
    pub fn chunk_max() -> (r: usize)
        requires
            Self::valid_profile(),
        ensures
            r == Self::spec_chunk_max(),
    {
        Self::max_bytes() + 3
    }

    /// The number of bytes chunks always stay over, with the same three bytes
    /// of slack.
    pub fn chunk_min() -> (r: usize)
        requires
            Self::valid_profile(),
        ensures
            r == Self::spec_chunk_min(),
    {
        if Self::min_bytes() > 3 {
            Self::min_bytes() - 3
        } else {
            1
        }
    }

    /// The number of bytes chunks aim to stay under.
    pub fn max_bytes() -> (r: usize)
        ensures
            r == Self::spec_max_bytes(),
    {
        MAX
    }

    /// The number of bytes chunks aim to stay over.
    pub fn min_bytes() -> (r: usize)
        ensures
            r == Self::spec_min_bytes(),
    {
        MAX / 2
    }

    /// The text of the chunk.
    pub fn as_str(&self) -> (r: &str)
        ensures
            r.spec_bytes() == self@,
    {
        self.text.as_str()
    }

    /// The length in bytes.
    pub fn len(&self) -> (n: usize)
        ensures
            n == self@.len(),
    {
        byte_len(self.text.as_str())
    }

    /// A borrowed view of the whole chunk.
    pub fn borrow(&self) -> (r: ChunkSlice<'_>)
        ensures
            r@ == self@,
    {
        ChunkSlice::from(self.text.as_str())
    }

    /// Appends `s`.
    pub fn push_str(&mut self, s: &str)
        ensures
            final(self)@ == old(self)@ + s.spec_bytes(),
    {
        proof {
            lemma_encode_concat(self.text@, s@);
        }
        self.text.append(s);
    }

    /// Splits the chunk at `byte_offset`, which must be a codepoint boundary:
    /// the chunk keeps the bytes before it, the bytes from it on are returned.
    fn split_off_unchecked(&mut self, byte_offset: usize) -> (r: Self)
        requires
            is_char_boundary(old(self)@, byte_offset as int),
        ensures
            final(self)@ == old(self)@.subrange(0, byte_offset as int),
            r@ == old(self)@.subrange(byte_offset as int, old(self)@.len() as int),
    {
        let (l, r) = self.text.as_str().split_at(byte_offset);
        let left = l.to_owned();
        let right = r.to_owned();
        self.text = left;
        RopeChunk { text: right }
    }

    /// Drops the bytes from `byte_offset` on, which must be a codepoint
    /// boundary.
    fn truncate_unchecked(&mut self, byte_offset: usize)
        requires
            is_char_boundary(old(self)@, byte_offset as int),
        ensures
            final(self)@ == old(self)@.subrange(0, byte_offset as int),
    {
        let _ = self.split_off_unchecked(byte_offset);
    }

    /// The byte count and line-break count of the chunk.
    pub fn summarize(&self) -> (r: ChunkSummary)
        ensures
            r.describes(self@),
    {
        summarize_str(self.text.as_str())
    }

    /// Whether a chunk with this summary meets the minimum size.
    pub fn is_big_enough(&self, summary: &ChunkSummary) -> (r: bool)
        ensures
            r == (summary.bytes >= Self::spec_min_bytes()),
    {
        summary.bytes >= Self::min_bytes()
    }

    /// Rebalances two adjacent chunks, given as views with their summaries.
    /// Two chunks that both meet the minimum are kept as they are; two that
    /// fit in one chunk are merged; otherwise the smaller side takes bytes
    /// from its neighbour until it meets the minimum, the cut moved onto a
    /// codepoint boundary in the direction that grows it. Should that empty
    /// the neighbour, the two are merged instead.
    pub fn balance_slices<'a>(
        left: (ChunkSlice<'a>, &'a ChunkSummary),
        right: (ChunkSlice<'a>, &'a ChunkSummary),
    ) -> (r: ((Self, ChunkSummary), Option<(Self, ChunkSummary)>))
        requires
            Self::valid_profile(),
            left.1.describes(left.0@),
            right.1.describes(right.0@),
        ensures
            r.0.1.describes(r.0.0@),
            r.1 matches Some(p) ==> p.1.describes(p.0@),
            r.0.0@ + opt_bytes(r.1) == left.0@ + right.0@,
            ({
                let (lb, rb) = (left.0@, right.0@);
                let (min, max) = (Self::spec_min_bytes(), Self::spec_max_bytes());
                if lb.len() >= min && rb.len() >= min {
                    r.0.0@ == lb && (r.1 matches Some(p) && p.0@ == rb)
                } else if lb.len() + rb.len() <= max {
                    r.1 is None
                } else if lb.len() < min {
                    is_rounded_up(
                        rb,
                        min - lb.len(),
                        if r.1 is Some {
                            r.0.0@.len() - lb.len()
                        } else {
                            rb.len() as int
                        },
                    )
                } else {
                    is_rounded_down(
                        lb,
                        lb.len() - (min - rb.len()),
                        if r.1 is Some {
                            r.0.0@.len() as int
                        } else {
                            0
                        },
                    )
                }
            }),
            left.0@.len() <= Self::spec_chunk_max() && right.0@.len() <= Self::spec_chunk_max() ==> {
                &&& r.0.0@.len() <= Self::spec_chunk_max()
                &&& (r.1 matches Some(p) ==> Self::within_bounds(r.0.0@) && Self::within_bounds(
                    p.0@,
                ))
            },
    {
        let (left, left_summary) = left;
        let (right, right_summary) = right;
        let min = Self::min_bytes();
        let max = Self::max_bytes();
        let ghost (lb, rb) = (left@, right@);
        proof {
            left.lemma_valid();
            right.lemma_valid();
        }
        let (left_len, right_len) = (left.len(), right.len());
        // Whether `left_len + right_len <= max`, asked where it matters (one
        // side under the minimum) in a form that cannot overflow.
        let fits = if left_len < min {
            right_len <= max - left_len
        } else {
            right_len >= min || left_len <= max - right_len
        };
        if left_len >= min && right_len >= min {
            ((left.to_owned(), *left_summary), Some((right.to_owned(), *right_summary)))
        } else if fits {
            let mut joined: Self = left.to_owned();
            joined.push_str(right.as_str());
            proof {
                lemma_count_lf_le_len(lb);
                lemma_count_lf_le_len(rb);
            }
            let summary = left_summary.add(right_summary);
            proof {
                lemma_count_lf_concat(lb, rb);
            }
            ((joined, summary), None)
        } else if left_len < min {
            // The left side lacks bytes: take them from the start of the right.
            let missing = min - left_len;
            let take = adjust_split_point::<true>(right.as_str(), missing);
            let (moved, kept) = right.split_at(take);
            let mut new_left: Self = left.to_owned();
            new_left.push_str(moved.as_str());
            proof {
                assert(moved@ + kept@ =~= rb);
                assert(new_left@ + kept@ =~= lb + rb);
            }
            if take == right_len {
                proof {
                    assert(kept@.len() == 0);
                    assert(new_left@ =~= lb + rb);
                }
                let s = new_left.summarize();
                ((new_left, s), None)
            } else {
                let new_right: Self = kept.to_owned();
                let ls = new_left.summarize();
                let rs = new_right.summarize();
                ((new_left, ls), Some((new_right, rs)))
            }
        } else {
            // The right side lacks bytes: take them from the end of the left.
            let missing = min - right_len;
            let keep = adjust_split_point::<false>(left.as_str(), left_len - missing);
            let (kept, moved) = left.split_at(keep);
            let mut new_right: Self = moved.to_owned();
            new_right.push_str(right.as_str());
            proof {
                assert(kept@ + moved@ =~= lb);
                assert(kept@ + new_right@ =~= lb + rb);
            }
            if keep == 0 {
                proof {
                    assert(kept@.len() == 0);
                    assert(new_right@ =~= lb + rb);
                }
                let s = new_right.summarize();
                ((new_right, s), None)
            } else {
                let new_left: Self = kept.to_owned();
                let ls = new_left.summarize();
                let rs = new_right.summarize();
                ((new_left, ls), Some((new_right, rs)))
            }
        }
    }

    /// Replaces the bytes in `[start, end)`, both codepoint boundaries, by
    /// `slice`.
    fn replace_range(&mut self, start: usize, end: usize, slice: ChunkSlice<'_>)
        requires
            start <= end <= old(self)@.len(),
            is_char_boundary(old(self)@, start as int),
            is_char_boundary(old(self)@, end as int),
        ensures
            final(self)@ == replaced(old(self)@, start as int, end as int, slice@),
    {
        let ghost b = self@;
        let whole = self.borrow();
        let len = whole.len();
        let head = whole.byte_range(0, start);
        let tail = whole.byte_range(end, len);
        let mut text: Self = head.to_owned();
        text.push_str(slice.as_str());
        text.push_str(tail.as_str());
        self.text = text.text;
    }

    /// Replaces the bytes in `range` by `slice`, keeping `summary` the
    /// summary of the chunk. When the result fits in `max_bytes` the edit is
    /// made in place and `None` is returned. Otherwise the chunk keeps a
    /// prefix of the result that meets the minimum, and the rest of the
    /// result is returned as new chunks, all within the chunk bounds, to be
    /// placed after it in order.
    ///
    /// The kept prefix is the text before `range`, grown when it is under the
    /// minimum by bytes from the start of `slice` and then of the text after
    /// `range`, up to the first boundary past the minimum; or, when the rest
    /// alone would be under the minimum, shrunk to the first boundary past
    /// the point that leaves the minimum for the rest.
    pub fn replace(
        &mut self,
        summary: &mut ChunkSummary,
        range: core::ops::Range<usize>,
        slice: ChunkSlice<'_>,
    ) -> (r: Option<Vec<Self>>)
        requires
            Self::valid_profile(),
            old(summary).describes(old(self)@),
            range.start <= range.end <= old(self)@.len(),
            is_char_boundary(old(self)@, range.start as int),
            is_char_boundary(old(self)@, range.end as int),
            old(self)@.len() + slice@.len() <= usize::MAX,
        ensures
            final(summary).describes(final(self)@),
            ({
                let b = old(self)@;
                let (start, end) = (range.start as int, range.end as int);
                let expected = replaced(b, start, end, slice@);
                let min = Self::spec_min_bytes();
                let k = final(self)@.len() as int;
                let (s, c) = (slice@.len() as int, b.len() - end);
                &&& (r is None <==> expected.len() <= Self::spec_max_bytes())
                &&& (r is None ==> final(self)@ == expected)
                &&& (r matches Some(v) ==> {
                    &&& final(self)@ + concat_views(v@) == expected
                    &&& is_chunking(expected.subrange(k, expected.len() as int), 0, v@)
                    &&& forall|i: int|
                        0 <= i < v.len() ==> Self::within_bounds(#[trigger] v@[i]@)
                    &&& min <= k
                    &&& (b.len() <= Self::spec_chunk_max() ==> k <= Self::spec_chunk_max())
                    &&& (start < min && min - start <= s ==> is_rounded_up(
                        slice@,
                        min - start,
                        k - start,
                    ))
                    &&& (start < min && min - start > s ==> is_rounded_up(
                        b.subrange(end, b.len() as int),
                        min - start - s,
                        k - start - s,
                    ))
                    &&& (start >= min && s + c < min ==> is_rounded_up(
                        b.subrange(0, start),
                        start - (min - s - c),
                        k,
                    ))
                    &&& (start >= min && s + c >= min ==> k == start)
                })
            }),
    {
        let start = range.start;
        let end = range.end;
        let len = self.len();
        if len - (end - start) + slice.len() <= Self::max_bytes() {
            self.replace_in_place(summary, start, end, slice);
            return None;
        }
        let ghost expected = replaced(self@, start as int, end as int, slice@);
        let (first, slice, last) = self.split_for_overflow(start, end, slice);
        *summary = self.summarize();
        let ghost rest = opt_chunk_bytes(first) + slice@ + last@;
        let extras = ExtraLeaves::new(first, slice, last);
        let v = extras.into_chunks();
        proof {
            assert(rest =~= expected.subrange(self@.len() as int, expected.len() as int));
            assert(rest.subrange(0, rest.len() as int) =~= rest);
            assert(self@ + concat_views(v@) =~= self@ + rest);
        }
        Some(v)
    }

    /// The edit of `replace` when the result fits in `max_bytes`.
    fn replace_in_place(
        &mut self,
        summary: &mut ChunkSummary,
        start: usize,
        end: usize,
        slice: ChunkSlice<'_>,
    )
        requires
            old(summary).describes(old(self)@),
            start <= end <= old(self)@.len(),
            is_char_boundary(old(self)@, start as int),
            is_char_boundary(old(self)@, end as int),
            replaced(old(self)@, start as int, end as int, slice@).len() <= Self::spec_max_bytes(),
            Self::valid_profile(),
        ensures
            final(self)@ == replaced(old(self)@, start as int, end as int, slice@),
            final(summary).describes(final(self)@),
    {
        let ghost b = self@;
        let ghost expected = replaced(b, start as int, end as int, slice@);
        let ghost (pre, mid, post) = (
            b.subrange(0, start as int),
            b.subrange(start as int, end as int),
            b.subrange(end as int, b.len() as int),
        );
        let len = self.len();
        proof {
            lemma_count_lf_le_len(expected);
            lemma_count_lf_concat(pre + slice@, post);
            lemma_count_lf_concat(pre, slice@);
            assert(b =~= pre + mid + post);
            lemma_count_lf_concat(pre + mid, post);
            lemma_count_lf_concat(pre, mid);
        }
        let whole = self.borrow();
        if end > start {
            // Summarize the replaced range directly or by subtraction,
            // whichever scans fewer bytes.
            let range_summary = if end - start < len / 2 {
                whole.byte_range(start, end).summarize()
            } else {
                let up_to_start = whole.byte_range(0, start).summarize();
                let from_end = whole.byte_range(end, len).summarize();
                summary.sub(&up_to_start.add(&from_end))
            };
            summary.sub_assign(&range_summary);
            summary.add_assign(&slice.summarize());
            self.replace_range(start, end, slice);
        } else {
            summary.add_assign(&slice.summarize());
            self.replace_range(start, start, slice);
        }
    }

    /// The first half of an overflowing `replace`: cuts the chunk around the
    /// replaced range and moves bytes so that the chunk meets the minimum and
    /// what follows it is nothing or at least the smallest chunk. Returns the
    /// bytes split off the end of the chunk, if any, the part of `slice` and
    /// the part of the old tail that follow the chunk.
    fn split_for_overflow<'s>(&mut self, start: usize, end: usize, slice: ChunkSlice<'s>) -> (r: (
        Option<Self>,
        ChunkSlice<'s>,
        Self,
    ))
        requires
            Self::valid_profile(),
            start <= end <= old(self)@.len(),
            is_char_boundary(old(self)@, start as int),
            is_char_boundary(old(self)@, end as int),
            replaced(old(self)@, start as int, end as int, slice@).len() > Self::spec_max_bytes(),
            old(self)@.len() + slice@.len() <= usize::MAX,
        ensures
            ({
                let b = old(self)@;
                let min = Self::spec_min_bytes();
                let k = final(self)@.len() as int;
                let (s, c) = (slice@.len() as int, b.len() - end);
                let rest = opt_chunk_bytes(r.0) + r.1@ + r.2@;
                &&& final(self)@ + rest == replaced(b, start as int, end as int, slice@)
                &&& leaves_enough::<MAX>(rest.len() as int)
                &&& min <= k
                &&& (b.len() <= Self::spec_chunk_max() ==> k <= Self::spec_chunk_max())
                &&& (start < min && min - start <= s ==> is_rounded_up(
                    slice@,
                    min - start,
                    k - start,
                ))
                &&& (start < min && min - start > s ==> is_rounded_up(
                    b.subrange(end as int, b.len() as int),
                    min - start - s,
                    k - start - s,
                ))
                &&& (start >= min && s + c < min ==> is_rounded_up(
                    b.subrange(0, start as int),
                    start - (min - s - c),
                    k,
                ))
                &&& (start >= min && s + c >= min ==> k == start)
            }),
    {
        let ghost b = self@;
        let ghost expected = replaced(b, start as int, end as int, slice@);
        let min = Self::min_bytes();
        let slen = slice.len();
        proof {
            slice.lemma_valid();
        }
        let mut last = self.split_off_unchecked(end);
        proof {
            lemma_boundary_prefix(b, end as int, start as int);
        }
        self.truncate_unchecked(start);
        let mut slice = slice;
        let mut first: Option<Self> = None;
        proof {
            assert(self@ + slice@ + last@ =~= expected);
        }
        proof {
            assert(Self::spec_max_bytes() - min >= min);
        }
        if start < min {
            let (rest_slice, rest_last) = self.grow_to_min(slice, last);
            slice = rest_slice;
            last = rest_last;
        } else if slen < min && last.len() < min - slen {
            let tail_len = slen + last.len();
            let ghost head = self@;
            assert(head == b.subrange(0, start as int));
            first = Some(self.shrink_for_tail(tail_len));
            assert(is_rounded_up(head, start - (min - tail_len), self@.len() as int));
        }
        proof {
            assert(self@ + (opt_chunk_bytes(first) + slice@ + last@) =~= expected);
        }
        (first, slice, last)
    }

    /// Grows a chunk under the minimum up to the first boundary past it, with
    /// bytes from the start of `slice` and, when those are too few, from the
    /// start of `last`. Returns what is left of the two.
    fn grow_to_min<'s>(&mut self, slice: ChunkSlice<'s>, last: Self) -> (r: (ChunkSlice<'s>, Self))
        requires
            Self::valid_profile(),
            old(self)@.len() < Self::spec_min_bytes(),
            old(self)@.len() + slice@.len() + last@.len() > Self::spec_max_bytes(),
        ensures
            ({
                let (a, s, k) = (
                    old(self)@.len() as int,
                    slice@.len() as int,
                    final(self)@.len() as int,
                );
                let min = Self::spec_min_bytes();
                &&& final(self)@ + r.0@ + r.1@ == old(self)@ + slice@ + last@
                &&& min <= k <= min + 3
                &&& (min - a <= s ==> is_rounded_up(slice@, min - a, k - a))
                &&& (min - a > s ==> is_rounded_up(last@, min - a - s, k - a - s))
            }),
    {
        let ghost (b0, last0) = (self@, last@);
        let mut last = last;
        proof {
            slice.lemma_valid();
        }
        let slen = slice.len();
        let missing = Self::min_bytes() - self.len();
        let take_from_slice = if missing > slen {
            slen
        } else {
            adjust_split_point::<true>(slice.as_str(), missing)
        };
        let (taken, rest) = slice.split_at(take_from_slice);
        self.push_str(taken.as_str());
        proof {
            assert(taken@ + rest@ =~= slice@);
        }
        if missing > take_from_slice {
            // The slice alone was not enough: take from `last` too.
            let take_from_last = adjust_split_point::<true>(
                last.as_str(),
                missing - take_from_slice,
            );
            let rest_last = last.split_off_unchecked(take_from_last);
            proof {
                assert(last@ + rest_last@ =~= last0);
                assert(rest@.len() == 0);
            }
            self.push_str(last.as_str());
            proof {
                assert(self@ + rest@ + rest_last@ =~= b0 + slice@ + last0);
            }
            (rest, rest_last)
        } else {
            proof {
                assert(self@ + rest@ + last@ =~= b0 + slice@ + last0);
            }
            (rest, last)
        }
    }

    /// Splits off the end of a chunk so that the `tail_len` bytes that follow
    /// it, under the minimum, reach it with what is split off. The chunk keeps
    /// bytes up to the first boundary at or past that point.
    fn shrink_for_tail(&mut self, tail_len: usize) -> (first: Self)
        requires
            Self::valid_profile(),
            old(self)@.len() >= Self::spec_min_bytes(),
            tail_len < Self::spec_min_bytes(),
            old(self)@.len() + tail_len > Self::spec_max_bytes(),
        ensures
            final(self)@ + first@ == old(self)@,
            is_rounded_up(
                old(self)@,
                old(self)@.len() - (Self::spec_min_bytes() - tail_len),
                final(self)@.len() as int,
            ),
            final(self)@.len() <= old(self)@.len() - (Self::spec_min_bytes() - tail_len) + 3,
    {
        let ghost b0 = self@;
        let missing = Self::min_bytes() - tail_len;
        let keep_in_self = adjust_split_point::<true>(self.as_str(), self.len() - missing);
        let first = self.split_off_unchecked(keep_in_self);
        proof {
            assert(self@ + first@ =~= b0);
        }
        first
    }
}

} // verus!
