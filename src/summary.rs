//! Byte and line-break counts of a run of text, and their arithmetic.

use vstd::prelude::*;
use vstd::string::*;

verus! {

/// The number of line-feed bytes in `b`.
pub open spec fn count_lf(b: Seq<u8>) -> nat
    decreases b.len(),
{
    if b.len() == 0 {
        0
    } else {
        count_lf(b.drop_last()) + if b.last() == 10u8 {
            1nat
        } else {
            0nat
        }
    }
}

/// Line feeds are counted piecewise over a concatenation.
pub proof fn lemma_count_lf_concat(a: Seq<u8>, b: Seq<u8>)
    ensures
        count_lf(a + b) == count_lf(a) + count_lf(b),
    decreases b.len(),
{
    if b.len() == 0 {
        assert(a + b =~= a);
    } else {
        assert((a + b).drop_last() =~= a + b.drop_last());
        lemma_count_lf_concat(a, b.drop_last());
    }
}

/// A text never holds more line feeds than bytes.
pub proof fn lemma_count_lf_le_len(b: Seq<u8>)
    ensures
        count_lf(b) <= b.len(),
    decreases b.len(),
{
    if b.len() > 0 {
        lemma_count_lf_le_len(b.drop_last());
    }
}

/// Relies on `str_indices::lines_lf::count_breaks`: the number of `0x0A`
/// bytes of the text.
#[verifier::external_body]
fn count_breaks(s: &str) -> (r: usize)
    ensures
        r == count_lf(s.spec_bytes()),
{
    str_indices::lines_lf::count_breaks(s)
}

/// Byte count and line-break count of a run of text.
#[derive(Clone, Copy, Debug, PartialEq, Eq, Structural)]
pub struct ChunkSummary {
    pub bytes: usize,
    pub line_breaks: usize,
}

impl ChunkSummary {
    /// The summary counts exactly the bytes and line feeds of `b`.
    pub open spec fn describes(self, b: Seq<u8>) -> bool {
        &&& self.bytes == b.len()
        &&& self.line_breaks == count_lf(b)
    }

    /// The empty summary.
    pub fn default() -> (r: Self)
        ensures
            r.bytes == 0,
            r.line_breaks == 0,
    {
        ChunkSummary { bytes: 0, line_breaks: 0 }
    }

    /// Componentwise sum.
    pub fn add(self, rhs: &Self) -> (r: Self)
        requires
            self.bytes + rhs.bytes <= usize::MAX,
            self.line_breaks + rhs.line_breaks <= usize::MAX,
        ensures
            r.bytes == self.bytes + rhs.bytes,
            r.line_breaks == self.line_breaks + rhs.line_breaks,
    {
        let mut r = self;
        r.add_assign(rhs);
        r
    }

    /// Componentwise difference; `rhs` must count a part of what `self` counts.
    pub fn sub(self, rhs: &Self) -> (r: Self)
        requires
            rhs.bytes <= self.bytes,
            rhs.line_breaks <= self.line_breaks,
        ensures
            r.bytes == self.bytes - rhs.bytes,
            r.line_breaks == self.line_breaks - rhs.line_breaks,
    {
        let mut r = self;
        r.sub_assign(rhs);
        r
    }

    /// Adds `rhs` componentwise to `self`.
    pub fn add_assign(&mut self, rhs: &Self)
        requires
            old(self).bytes + rhs.bytes <= usize::MAX,
            old(self).line_breaks + rhs.line_breaks <= usize::MAX,
        ensures
            final(self).bytes == old(self).bytes + rhs.bytes,
            final(self).line_breaks == old(self).line_breaks + rhs.line_breaks,
    {
        self.bytes = self.bytes + rhs.bytes;
        self.line_breaks = self.line_breaks + rhs.line_breaks;
    }

    /// Subtracts `rhs` componentwise from `self`.
    pub fn sub_assign(&mut self, rhs: &Self)
        requires
            rhs.bytes <= old(self).bytes,
            rhs.line_breaks <= old(self).line_breaks,
        ensures
            final(self).bytes == old(self).bytes - rhs.bytes,
            final(self).line_breaks == old(self).line_breaks - rhs.line_breaks,
    {
        self.bytes = self.bytes - rhs.bytes;
        self.line_breaks = self.line_breaks - rhs.line_breaks;
    }
}

/// The summary of a text.
pub fn summarize_str(s: &str) -> (r: ChunkSummary)
    ensures
        r.describes(s.spec_bytes()),
{
    ChunkSummary { bytes: crate::boundary::byte_len(s), line_breaks: count_breaks(s) }
}

/// Summaries add up over concatenation: the sum of the summaries of two
/// texts is the summary of the two texts joined.
pub proof fn lemma_summary_concat(a: Seq<u8>, b: Seq<u8>, sa: ChunkSummary, sb: ChunkSummary)
    requires
        sa.describes(a),
        sb.describes(b),
    ensures
        sa.bytes + sb.bytes == (a + b).len(),
        sa.line_breaks + sb.line_breaks == count_lf(a + b),
{
    lemma_count_lf_concat(a, b);
}

} // verus!
