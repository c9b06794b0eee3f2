use rope_chunk::boundary::adjust_split_point;
use rope_chunk::chunk::RopeChunk;
use rope_chunk::chunk_iter::RopeChunkIter;
use rope_chunk::extra_leaves::ExtraLeaves;
use rope_chunk::slice::ChunkSlice;
use rope_chunk::summary::{summarize_str, ChunkSummary};

type Tiny = RopeChunk<4>;

fn chunk(s: &str) -> Tiny {
    ChunkSlice::from(s).to_owned()
}

fn pieces(text: &str) -> Vec<String> {
    let mut it = RopeChunkIter::<4>::new(text);
    let mut out = Vec::new();
    while let Some(c) = it.next() {
        out.push(c.to_string());
    }
    out
}

#[test]
fn size_constants() {
    assert_eq!(Tiny::max_bytes(), 4);
    assert_eq!(Tiny::min_bytes(), 2);
    assert_eq!(Tiny::chunk_max(), 7);
    assert_eq!(Tiny::chunk_min(), 1);
    assert_eq!(RopeChunk::<1024>::max_bytes(), 1024);
    assert_eq!(RopeChunk::<1024>::min_bytes(), 512);
    assert_eq!(RopeChunk::<1024>::chunk_max(), 1027);
    assert_eq!(RopeChunk::<1024>::chunk_min(), 509);
}

#[test]
fn default_chunk_is_empty() {
    let c = Tiny::default();
    assert_eq!(c.len(), 0);
    assert_eq!(c.as_str(), "");
    assert_eq!(ChunkSlice::default().len(), 0);
}

#[test]
fn summary_counts_bytes_and_line_feeds() {
    let s = summarize_str("a\nbé\r\n\n");
    assert_eq!(s, ChunkSummary { bytes: 8, line_breaks: 3 });
    let c = chunk("x\ny");
    assert_eq!(c.summarize(), ChunkSummary { bytes: 3, line_breaks: 1 });
    assert_eq!(ChunkSlice::from("").summarize(), ChunkSummary::default());
}

#[test]
fn summary_of_concatenation_is_sum() {
    let a = summarize_str("ab\n");
    let b = summarize_str("\ncd\n");
    assert_eq!(a.add(&b), summarize_str("ab\n\ncd\n"));
    assert_eq!(a.add(&b), ChunkSummary { bytes: 7, line_breaks: 3 });
}

#[test]
fn summary_subtraction() {
    let total = summarize_str("ab\ncd\n");
    let part = summarize_str("ab\n");
    assert_eq!(total.sub(&part), summarize_str("cd\n"));
    let mut x = total;
    x.sub_assign(&part);
    x.add_assign(&part);
    assert_eq!(x, total);
}

#[test]
fn is_big_enough_uses_min_bytes() {
    let c = chunk("ab");
    assert!(c.is_big_enough(&ChunkSummary { bytes: 2, line_breaks: 0 }));
    assert!(!c.is_big_enough(&ChunkSummary { bytes: 1, line_breaks: 0 }));
}

#[test]
fn chunking_six_ascii_bytes() {
    // Full chunks are taken while at least the minimum is left behind.
    let p = pieces("abcdef");
    assert_eq!(p, vec!["abcd".to_string(), "ef".to_string()]);
    for (i, c) in p.iter().enumerate() {
        assert!(c.len() <= 4);
        if i + 1 < p.len() {
            assert!(c.len() >= 2);
        }
    }
}

#[test]
fn chunking_leaves_the_minimum_behind() {
    assert_eq!(pieces("abcde"), vec!["abc".to_string(), "de".to_string()]);
    assert_eq!(pieces("abc"), vec!["abc".to_string()]);
    assert_eq!(pieces("a"), vec!["a".to_string()]);
    assert!(pieces("").is_empty());
}

#[test]
fn chunking_respects_codepoints() {
    let text = "aé€𝄞bcdé€";
    let p = pieces(text);
    assert_eq!(p.concat(), text);
    for c in &p {
        assert!(c.len() >= 1 && c.len() <= Tiny::chunk_max());
    }
    assert_eq!(p[0], "aé€");
}

#[test]
fn chunk_iter_size_hint() {
    let mut it = RopeChunkIter::<4>::new("abcdefghij");
    assert_eq!(it.size_hint(), (2, Some(3)));
    it.next();
    assert_eq!(it.size_hint(), (1, Some(2)));
}

#[test]
fn split_point_never_inside_codepoint() {
    let s = "héllo";
    assert_eq!(s.len(), 6);
    assert_eq!(adjust_split_point::<true>(s, 2), 3);
    assert_eq!(adjust_split_point::<false>(s, 2), 1);
    assert_eq!(adjust_split_point::<true>(s, 1), 1);
    assert_eq!(adjust_split_point::<true>(s, 6), 6);
    assert_eq!(adjust_split_point::<true>("𝄞", 1), 4);
    assert_eq!(adjust_split_point::<false>("𝄞", 3), 0);
}

#[test]
fn replace_within_one_chunk() {
    let mut c = chunk("abcd");
    let mut summary = c.summarize();
    let extra = c.replace(&mut summary, 1..3, ChunkSlice::from("XY"));
    assert!(extra.is_none());
    assert_eq!(c.as_str(), "aXYd");
    assert_eq!(summary, ChunkSummary { bytes: 4, line_breaks: 0 });
}

#[test]
fn replace_updates_line_breaks() {
    let mut c = chunk("a\n\nb");
    let mut summary = c.summarize();
    assert!(c.replace(&mut summary, 1..2, ChunkSlice::from("x")).is_none());
    assert_eq!(c.as_str(), "ax\nb");
    assert_eq!(summary, ChunkSummary { bytes: 4, line_breaks: 1 });
    // The replaced range is at least half the chunk: summarized by subtraction.
    let mut c = chunk("\n\n\n");
    let mut summary = c.summarize();
    assert!(c.replace(&mut summary, 0..3, ChunkSlice::from("q\n")).is_none());
    assert_eq!(summary, ChunkSummary { bytes: 2, line_breaks: 1 });
    // An insertion.
    let mut c = chunk("ab");
    let mut summary = c.summarize();
    assert!(c.replace(&mut summary, 2..2, ChunkSlice::from("\n")).is_none());
    assert_eq!(c.as_str(), "ab\n");
    assert_eq!(summary, ChunkSummary { bytes: 3, line_breaks: 1 });
}

fn check_overflow(before: &str, start: usize, end: usize, text: &str) -> (String, Vec<String>) {
    let mut c = chunk(before);
    let mut summary = c.summarize();
    let extra = c.replace(&mut summary, start..end, ChunkSlice::from(text)).expect("overflow");
    let expected = format!("{}{}{}", &before[..start], text, &before[end..]);
    let mut all = c.as_str().to_string();
    for e in &extra {
        all.push_str(e.as_str());
        assert!(e.len() >= Tiny::chunk_min() && e.len() <= Tiny::chunk_max());
    }
    assert_eq!(all, expected);
    assert!(c.len() >= Tiny::min_bytes() && c.len() <= Tiny::chunk_max());
    assert_eq!(summary, summarize_str(c.as_str()));
    (c.as_str().to_string(), extra.iter().map(|e| e.as_str().to_string()).collect())
}

#[test]
fn replace_overflowing_into_several_chunks() {
    // The result holds ten bytes.
    let (kept, extra) = check_overflow("abcd", 2, 2, "efghij");
    assert_eq!(kept, "ab");
    assert_eq!(extra, vec!["efgh".to_string(), "ijcd".to_string()]);
    let (kept, extra) = check_overflow("abcd", 1, 3, "0123456789");
    assert_eq!(kept, "a0");
    assert_eq!(extra, vec!["1234".to_string(), "5678".to_string(), "9d".to_string()]);
}

#[test]
fn replace_grows_small_head_from_tail() {
    let (kept, extra) = check_overflow("abcde", 0, 0, "x");
    assert_eq!(kept, "xa");
    assert_eq!(extra, vec!["bcde".to_string()]);
    let (kept, extra) = check_overflow("abc", 0, 0, "xy");
    assert_eq!(kept, "xy");
    assert_eq!(extra, vec!["abc".to_string()]);
    let (kept, extra) = check_overflow("ab", 1, 1, "é€");
    assert_eq!(kept, "aé");
    assert_eq!(extra, vec!["€b".to_string()]);
}

#[test]
fn replace_shrinks_head_for_small_tail() {
    let (kept, extra) = check_overflow("abcd", 4, 4, "e");
    assert_eq!(kept, "abc");
    assert_eq!(extra, vec!["de".to_string()]);
}

#[test]
fn balance_keeps_big_enough_pair() {
    let (l, r) = (ChunkSlice::from("ab"), ChunkSlice::from("cde"));
    let (ls, rs) = (l.summarize(), r.summarize());
    let ((nl, nls), right) = Tiny::balance_slices((l, &ls), (r, &rs));
    assert_eq!(nl.as_str(), "ab");
    assert_eq!(nls, ls);
    let (nr, nrs) = right.expect("kept");
    assert_eq!(nr.as_str(), "cde");
    assert_eq!(nrs, rs);
}

#[test]
fn balance_merges_small_pair() {
    let (l, r) = (ChunkSlice::from("a\n"), ChunkSlice::from("b"));
    let (ls, rs) = (l.summarize(), r.summarize());
    let ((nl, nls), right) = Tiny::balance_slices((l, &ls), (r, &rs));
    assert!(right.is_none());
    assert_eq!(nl.as_str(), "a\nb");
    assert_eq!(nls, ChunkSummary { bytes: 3, line_breaks: 1 });
}

#[test]
fn balance_left_takes_from_right() {
    let (l, r) = (ChunkSlice::from("a"), ChunkSlice::from("bcdef"));
    let (ls, rs) = (l.summarize(), r.summarize());
    let ((nl, nls), right) = Tiny::balance_slices((l, &ls), (r, &rs));
    assert_eq!(nl.as_str(), "ab");
    assert_eq!(nls, summarize_str("ab"));
    let (nr, nrs) = right.expect("two chunks");
    assert_eq!(nr.as_str(), "cdef");
    assert_eq!(nrs, summarize_str("cdef"));
}

#[test]
fn balance_right_takes_from_left() {
    let (l, r) = (ChunkSlice::from("abcé"), ChunkSlice::from("z"));
    let (ls, rs) = (l.summarize(), r.summarize());
    let ((nl, _), right) = Tiny::balance_slices((l, &ls), (r, &rs));
    // The cut would fall inside `é`: it moves back so the right side grows.
    assert_eq!(nl.as_str(), "abc");
    assert_eq!(right.expect("two chunks").0.as_str(), "éz");
}

#[test]
fn balance_merges_when_pull_empties_neighbour() {
    let (l, r) = (ChunkSlice::from("a"), ChunkSlice::from("𝄞"));
    let (ls, rs) = (l.summarize(), r.summarize());
    let ((nl, nls), right) = Tiny::balance_slices((l, &ls), (r, &rs));
    assert!(right.is_none());
    assert_eq!(nl.as_str(), "a𝄞");
    assert_eq!(nls.bytes, 5);
}

#[test]
fn extra_leaves_hand_out_bounded_chunks() {
    let mut leaves = ExtraLeaves::<4>::new(Some(chunk("a")), ChunkSlice::from("bcdefg"), chunk("h"));
    assert_eq!(leaves.first().as_str(), "abcd");
    assert_eq!(leaves.next().expect("second").as_str(), "efgh");
    assert!(leaves.next().is_none());
    let leaves = ExtraLeaves::<4>::new(None, ChunkSlice::from("xy"), chunk(""));
    let all = leaves.into_chunks();
    assert_eq!(all.len(), 1);
    assert_eq!(all[0].as_str(), "xy");
}

#[test]
fn push_and_borrow() {
    let mut c = chunk("ab");
    c.push_str("é");
    assert_eq!(c.as_str(), "abé");
    assert_eq!(c.borrow().len(), 4);
    let (x, y) = c.borrow().split_at(2);
    assert_eq!((x.as_str(), y.as_str()), ("ab", "é"));
    assert_eq!(c.borrow().byte_range(1, 4).as_str(), "bé");
}

#[test]
fn extra_leaves_size_hint() {
    let mut leaves = ExtraLeaves::<4>::new(None, ChunkSlice::from("abcdefghi"), chunk(""));
    assert_eq!(leaves.size_hint(), (2, Some(3)));
    leaves.first();
    assert_eq!(leaves.size_hint(), (1, Some(2)));
}
