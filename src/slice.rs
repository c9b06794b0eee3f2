//! A borrowed, read-only view of UTF-8 text.

use vstd::prelude::*;
use vstd::string::*;
use vstd::utf8::*;
use crate::boundary::{byte_len, lemma_boundary_shift};
use crate::chunk::RopeChunk;
use crate::summary::{summarize_str, ChunkSummary};

verus! {

broadcast use encode_utf8_valid_utf8;

/// A borrowed run of UTF-8 text: a chunk's contents, a part of them, or the
/// text handed to an edit.
#[derive(Clone, Copy, Debug)]
pub struct ChunkSlice<'a> {
    text: &'a str,
}

impl<'a> View for ChunkSlice<'a> {
    type V = Seq<u8>;

    /// The bytes of the text.
    closed spec fn view(&self) -> Seq<u8> {
        self.text.spec_bytes()
    }
}

impl<'a> ChunkSlice<'a> {
    /// The view of `text`.
    pub fn from(text: &'a str) -> (r: Self)
        ensures
            r@ == text.spec_bytes(),
    {
        ChunkSlice { text }
    }

    /// The empty view.
    pub fn default() -> (r: Self)
        ensures
            r@.len() == 0,
    {
        let e: &'a str = "";
        proof {
            reveal_strlit("");
        }
        ChunkSlice { text: e }
    }

    /// The viewed text.
    pub fn as_str(&self) -> (r: &'a str)
        ensures
            r.spec_bytes() == self@,
    {
        self.text
    }

    /// The length in bytes.
    pub fn len(&self) -> (n: usize)
        ensures
            n == self@.len(),
    {
        byte_len(self.text)
    }

    /// The bytes are valid UTF-8.
    pub proof fn lemma_valid(&self)
        ensures
            valid_utf8(self@),
    {
    }

    /// Splits the view at a codepoint boundary.
    pub fn split_at(&self, mid: usize) -> (r: (ChunkSlice<'a>, ChunkSlice<'a>))
        requires
            is_char_boundary(self@, mid as int),
        ensures
            r.0@ == self@.subrange(0, mid as int),
            r.1@ == self@.subrange(mid as int, self@.len() as int),
    {
        let (l, r) = self.text.split_at(mid);
        (ChunkSlice { text: l }, ChunkSlice { text: r })
    }

    /// The part of the view between two codepoint boundaries.
    pub fn byte_range(&self, start: usize, end: usize) -> (r: ChunkSlice<'a>)
        requires
            start <= end <= self@.len(),
            is_char_boundary(self@, start as int),
            is_char_boundary(self@, end as int),
        ensures
            r@ == self@.subrange(start as int, end as int),
    {
        let (_, tail) = self.split_at(start);
        proof {
            lemma_boundary_shift(self@, start as int, end - start);
        }
        let (mid, _) = tail.split_at(end - start);
        proof {
            assert(mid@ =~= self@.subrange(start as int, end as int));
        }
        mid
    }

    /// The byte count and line-break count of the text.
    pub fn summarize(&self) -> (r: ChunkSummary)
        ensures
            r.describes(self@),
    {
        summarize_str(self.text)
    }

    /// An owned chunk holding a copy of the text.
    pub fn to_owned<const MAX: usize>(&self) -> (r: RopeChunk<MAX>)
        ensures
            r@ == self@,
    {
        RopeChunk { text: self.text.to_owned() }
    }
}

} // verus!
