//! Packaging the text left over by an overflowing edit into new chunks.

use vstd::prelude::*;
use vstd::string::*;
use vstd::utf8::*;
use crate::boundary::{byte_len, lemma_boundary_shift};
use crate::chunk::RopeChunk;
use crate::chunk_iter::{is_next_cut, leaves_enough, next_cut};
use crate::slice::ChunkSlice;

verus! {

broadcast use {encode_utf8_valid_utf8, is_char_boundary_start_end_of_seq};

/// The bytes of a sequence of chunks, one after the other.
pub open spec fn concat_views<const MAX: usize>(v: Seq<RopeChunk<MAX>>) -> Seq<u8>
    decreases v.len(),
{
    if v.len() == 0 {
        Seq::empty()
    } else {
        concat_views(v.drop_last()) + v.last()@
    }
}

/// Chunk `i` of `v` is the piece of `bytes` that the chunking rule cuts from
/// where the chunks before it end, counting from `from`.
pub open spec fn is_cut_at<const MAX: usize>(
    bytes: Seq<u8>,
    from: int,
    v: Seq<RopeChunk<MAX>>,
    i: int,
) -> bool {
    is_next_cut(
        bytes,
        from + concat_views(v.take(i)).len(),
        from + concat_views(v.take(i + 1)).len(),
        RopeChunk::<MAX>::spec_max_bytes(),
        RopeChunk::<MAX>::spec_min_bytes(),
    )
}

/// `v` is `bytes` from `from` on, cut by the chunking rule.
pub open spec fn is_chunking<const MAX: usize>(bytes: Seq<u8>, from: int, v: Seq<RopeChunk<MAX>>) -> bool {
    &&& concat_views(v) == bytes.subrange(from, bytes.len() as int)
    &&& forall|i: int| 0 <= i < v.len() ==> #[trigger] is_cut_at(bytes, from, v, i)
}

/// The bytes of an optional chunk.
pub open spec fn opt_chunk_bytes<const MAX: usize>(o: Option<RopeChunk<MAX>>) -> Seq<u8> {
    match o {
        Some(c) => c@,
        None => Seq::empty(),
    }
}

/// The text left over by an edit, handed out as chunks that all lie within
/// the chunk bounds, each cut on a codepoint boundary.
pub struct ExtraLeaves<const MAX: usize> {
    text: String,
    yielded: usize,
}

impl<const MAX: usize> ExtraLeaves<MAX> {
    /// The bytes of all the leftover text.
    pub closed spec fn text_bytes(&self) -> Seq<u8> {
        encode_utf8(self.text@)
    }

    /// How many bytes were handed out.
    pub closed spec fn spec_yielded(&self) -> int {
        self.yielded as int
    }

    /// The handed-out part ends on a boundary, and what is left is nothing or
    /// at least the smallest chunk.
    pub open spec fn wf(&self) -> bool {
        &&& 0 <= self.spec_yielded() <= self.text_bytes().len()
        &&& is_char_boundary(self.text_bytes(), self.spec_yielded())
        &&& leaves_enough::<MAX>(self.text_bytes().len() - self.spec_yielded())
    }

    /// Gathers `first` (bytes split off the edited chunk, if any), the
    /// rest of the inserted text and the tail of the edited chunk.
    pub fn new(first: Option<RopeChunk<MAX>>, slice: ChunkSlice<'_>, last: RopeChunk<MAX>) -> (r: Self)
        requires
            leaves_enough::<MAX>((opt_chunk_bytes(first) + slice@ + last@).len() as int),
        ensures
            r.wf(),
            r.spec_yielded() == 0,
            r.text_bytes() == opt_chunk_bytes(first) + slice@ + last@,
    {
        let mut text: RopeChunk<MAX> = match first {
            Some(f) => f,
            None => ChunkSlice::default().to_owned(),
        };
        text.push_str(slice.as_str());
        text.push_str(last.as_str());
        ExtraLeaves { text: text.text, yielded: 0 }
    }

    /// Cuts off the next chunk; some text must be left.
    fn take(&mut self) -> (c: RopeChunk<MAX>)
        requires
            RopeChunk::<MAX>::valid_profile(),
            old(self).wf(),
            old(self).spec_yielded() < old(self).text_bytes().len(),
        ensures
            final(self).wf(),
            final(self).text_bytes() == old(self).text_bytes(),
            old(self).spec_yielded() < final(self).spec_yielded(),
            is_next_cut(
                old(self).text_bytes(),
                old(self).spec_yielded(),
                final(self).spec_yielded(),
                RopeChunk::<MAX>::spec_max_bytes(),
                RopeChunk::<MAX>::spec_min_bytes(),
            ),
            c@ == old(self).text_bytes().subrange(old(self).spec_yielded(), final(self).spec_yielded()),
            RopeChunk::<MAX>::within_bounds(c@),
    {
        let ghost bytes = encode_utf8(self.text@);
        let text = self.text.as_str();
        let len = byte_len(text);
        let n = next_cut::<MAX>(text, self.yielded);
        let (_, rest) = text.split_at(self.yielded);
        proof {
            lemma_boundary_shift(bytes, self.yielded as int, n as int);
        }
        let (piece, _) = rest.split_at(n);
        proof {
            assert(piece.spec_bytes() =~= bytes.subrange(self.yielded as int, self.yielded + n));
        }
        let c: RopeChunk<MAX> = ChunkSlice::from(piece).to_owned();
        self.yielded = self.yielded + n;
        c
    }

    /// The first chunk; nothing may have been handed out yet, and there must
    /// be leftover text.
    pub fn first(&mut self) -> (c: RopeChunk<MAX>)
        requires
            RopeChunk::<MAX>::valid_profile(),
            old(self).wf(),
            old(self).spec_yielded() == 0,
            old(self).text_bytes().len() > 0,
        ensures
            final(self).wf(),
            final(self).text_bytes() == old(self).text_bytes(),
            is_next_cut(
                old(self).text_bytes(),
                0,
                final(self).spec_yielded(),
                RopeChunk::<MAX>::spec_max_bytes(),
                RopeChunk::<MAX>::spec_min_bytes(),
            ),
            c@ == old(self).text_bytes().subrange(0, final(self).spec_yielded()),
            RopeChunk::<MAX>::within_bounds(c@),
    {
        self.take()
    }

    /// The next chunk, or `None` once all the text was handed out.
    pub fn next(&mut self) -> (r: Option<RopeChunk<MAX>>)
        requires
            RopeChunk::<MAX>::valid_profile(),
            old(self).wf(),
        ensures
            final(self).wf(),
            final(self).text_bytes() == old(self).text_bytes(),
            r is None <==> old(self).spec_yielded() == old(self).text_bytes().len(),
            r is None ==> final(self).spec_yielded() == old(self).spec_yielded(),
            r matches Some(c) ==> {
                &&& old(self).spec_yielded() < final(self).spec_yielded()
                &&& is_next_cut(
                    old(self).text_bytes(),
                    old(self).spec_yielded(),
                    final(self).spec_yielded(),
                    RopeChunk::<MAX>::spec_max_bytes(),
                    RopeChunk::<MAX>::spec_min_bytes(),
                )
                &&& c@ == old(self).text_bytes().subrange(
                    old(self).spec_yielded(),
                    final(self).spec_yielded(),
                )
                &&& RopeChunk::<MAX>::within_bounds(c@)
            },
    {
        if self.yielded == byte_len(self.text.as_str()) {
            None
        } else {
            Some(self.take())
        }
    }

    /// Bounds on how many chunks are left.
    pub fn size_hint(&self) -> (r: (usize, Option<usize>))
        requires
            RopeChunk::<MAX>::valid_profile(),
            self.wf(),
        ensures
            r.0 == (self.text_bytes().len() - self.spec_yielded()) / (MAX as int),
            r.1 == Some((r.0 + 1) as usize),
    {
        let rem = byte_len(self.text.as_str()) - self.yielded;
        let max = RopeChunk::<MAX>::max_bytes();
        let lo = rem / max;
        assert(lo * 2 <= rem) by (nonlinear_arith)
            requires
                lo == rem / max,
                max >= 2,
        ;
        (lo, Some(lo + 1))
    }

    /// All the chunks not handed out yet, in order.
    pub fn into_chunks(self) -> (v: Vec<RopeChunk<MAX>>)
        requires
            RopeChunk::<MAX>::valid_profile(),
            self.wf(),
        ensures
            is_chunking(self.text_bytes(), self.spec_yielded(), v@),
            forall|i: int| 0 <= i < v.len() ==> RopeChunk::<MAX>::within_bounds(#[trigger] v@[i]@),
    {
        let mut it = self;
        let ghost bytes = it.text_bytes();
        let ghost start = it.spec_yielded();
        let mut v: Vec<RopeChunk<MAX>> = Vec::new();
        loop
            invariant
                RopeChunk::<MAX>::valid_profile(),
                it.wf(),
                it.text_bytes() == bytes,
                0 <= start <= it.spec_yielded(),
                bytes == self.text_bytes(),
                start == self.spec_yielded(),
                concat_views(v@) == bytes.subrange(start, it.spec_yielded()),
                forall|i: int| 0 <= i < v.len() ==> #[trigger] is_cut_at(bytes, start, v@, i),
                forall|i: int| 0 <= i < v.len() ==> RopeChunk::<MAX>::within_bounds(#[trigger] v@[i]@),
            decreases bytes.len() - it.spec_yielded(),
        {
            let ghost before = it.spec_yielded();
            match it.next() {
                Some(c) => {
                    let ghost old_v = v@;
                    v.push(c);
                    proof {
                        assert(v@.drop_last() =~= old_v);
                        assert(v@.take(old_v.len() as int) =~= old_v);
                        assert(v@.take(old_v.len() as int + 1) =~= v@);
                        assert forall|i: int| 0 <= i < v.len() implies #[trigger] is_cut_at(
                            bytes,
                            start,
                            v@,
                            i,
                        ) by {
                            if i < old_v.len() {
                                assert(v@.take(i) =~= old_v.take(i));
                                assert(v@.take(i + 1) =~= old_v.take(i + 1));
                                assert(is_cut_at(bytes, start, old_v, i));
                            }
                        }
                        assert(bytes.subrange(start, before) + bytes.subrange(before, it.spec_yielded())
                            =~= bytes.subrange(start, it.spec_yielded()));
                    }
                },
                None => {
                    return v;
                },
            }
        }
    }
}

} // verus!
