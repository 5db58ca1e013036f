use qbsdiff::control::{encode_control, encode_int};
use qbsdiff::encoder::Encoder;
use qbsdiff::index::{longest_match, range_to_extent};
use qbsdiff::model::Verdict;
use qbsdiff::pack::{pack, write_patch};
use qbsdiff::parallel::{push_rewind, source_position};
use qbsdiff::patch::moved;
use qbsdiff::search::weigh;
use qbsdiff::similar::{scan_divide, scan_similar};
use qbsdiff::{Compression, Control, ParSaDiff, SaDiff};
use std::io::Read;
use suffix_array::SuffixArray;

fn control(add: u64, copy: u64, seek: i64) -> Control {
    Control { add, copy, seek }
}

fn encoded(x: i64) -> Vec<u8> {
    let mut out = Vec::new();
    encode_int(x, &mut out);
    out
}

#[test]
fn integers_are_sign_and_magnitude() {
    assert_eq!(encoded(0), [0, 0, 0, 0, 0, 0, 0, 0]);
    assert_eq!(encoded(0x0102), [2, 1, 0, 0, 0, 0, 0, 0]);
    assert_eq!(encoded(-0x0102), [2, 1, 0, 0, 0, 0, 0, 0x80]);
    assert_eq!(encoded(i64::MAX), [0xff, 0xff, 0xff, 0xff, 0xff, 0xff, 0xff, 0x7f]);
    assert_eq!(encoded(-i64::MAX), [0xff, 0xff, 0xff, 0xff, 0xff, 0xff, 0xff, 0xff]);
    assert_eq!(encoded(i64::MIN), [0, 0, 0, 0, 0, 0, 0, 0x80]);
}

#[test]
fn controls_are_three_integers() {
    let mut out = vec![7];
    encode_control(control(1, 2, -3), &mut out);
    assert_eq!(out.len(), 25);
    assert_eq!(out[0], 7);
    assert_eq!(out[1..9], encoded(1)[..]);
    assert_eq!(out[9..17], encoded(2)[..]);
    assert_eq!(out[17..], encoded(-3)[..]);
}

#[test]
fn similar_prefix_and_suffix() {
    assert_eq!(scan_similar(b"", b"abc", false), 0);
    assert_eq!(scan_similar(b"abc", b"abc", false), 3);
    assert_eq!(scan_similar(b"abc", b"abcd", false), 3);
    // A tie goes to the shorter prefix.
    assert_eq!(scan_similar(b"abxc", b"abyc", false), 2);
    assert_eq!(scan_similar(b"abxcd", b"abycd", false), 5);
    assert_eq!(scan_similar(b"xbc", b"ybc", false), 3);
    assert_eq!(scan_similar(b"xb", b"yb", false), 0);
    assert_eq!(scan_similar(b"xyabc", b"zabc", true), 3);
    assert_eq!(scan_similar(b"xyabc", b"zabc", false), 0);
}

#[test]
fn overlap_is_divided() {
    assert_eq!(scan_divide(b"", b"", b""), 0);
    assert_eq!(scan_divide(b"abcd", b"abxx", b"xxcd"), 2);
    assert_eq!(scan_divide(b"abcd", b"abcd", b"abcd"), 0);
    assert_eq!(scan_divide(b"abcd", b"abcd", b"xxxx"), 4);
    assert_eq!(scan_divide(b"abcd", b"xxxx", b"abcd"), 0);
}

#[test]
fn ranges_become_extents() {
    assert_eq!(range_to_extent(3..8), (3, 5));
    assert_eq!(range_to_extent(8..8), (8, 0));
    assert_eq!(range_to_extent(std::ops::Range { start: 8, end: 3 }), (8, 0));
}

#[test]
fn longest_match_is_found() {
    let s = b"splendid splendor";
    let sa = SuffixArray::new(s);
    assert_eq!(longest_match(&sa, b"splash").1, 3);
    assert_eq!(longest_match(&sa, b"endor!"), (12, 5));
    assert_eq!(longest_match(&sa, b"zzz").1, 0);
    assert_eq!(longest_match(&sa, b"").1, 0);
    assert_eq!(longest_match(&SuffixArray::new(b""), b"abc"), (0, 0));
}

#[test]
fn matches_are_weighed() {
    assert_eq!(weigh(0, 0, 12, 8), Verdict::Nothing);
    assert_eq!(weigh(12, 0, 12, 8), Verdict::Dull);
    assert_eq!(weigh(20, 20, 12, 8), Verdict::Dull);
    assert_eq!(weigh(20, 12, 12, 8), Verdict::Similar);
    assert_eq!(weigh(20, 21, 12, 8), Verdict::Similar);
    assert_eq!(weigh(20, 11, 12, 8), Verdict::Taken);
    assert_eq!(weigh(1, 0, 0, 0), Verdict::Taken);
    assert_eq!(weigh(20, 0, 12, usize::MAX), Verdict::Similar);
}

#[test]
fn positions_wrap() {
    assert_eq!(moved(10, control(5, 100, -3)), 12);
    assert_eq!(moved(10, control(0, 0, -11)), u64::MAX);
    assert_eq!(moved(u64::MAX, control(2, 0, 0)), 1);
    let ctrls = vec![control(5, 1, 2), control(3, 9, -4)];
    assert_eq!(source_position(&ctrls), 6);
    assert_eq!(source_position(&Vec::new()), 0);
}

#[test]
fn rewind_goes_back_to_the_start() {
    for pos in [0, 7, i64::MAX as u64, i64::MAX as u64 + 1, u64::MAX] {
        let mut ctrls = vec![control(pos, 0, 0)];
        push_rewind(pos, &mut ctrls);
        assert_eq!(source_position(&ctrls), 0);
    }
    let mut ctrls = Vec::new();
    push_rewind(7, &mut ctrls);
    assert_eq!(ctrls, [control(0, 0, -7)]);
    let mut ctrls = Vec::new();
    push_rewind(i64::MAX as u64 + 6, &mut ctrls);
    assert_eq!(ctrls, [control(0, 0, i64::MIN), control(0, 0, -5)]);
}

#[test]
fn patch_file_has_header_and_sections() {
    let mut patch = Vec::new();
    write_patch(b"cc", b"ddd", b"e", 300, &mut patch);
    let mut expected = b"BSDIFF40".to_vec();
    expected.extend_from_slice(&encoded(2));
    expected.extend_from_slice(&encoded(3));
    expected.extend_from_slice(&encoded(300));
    expected.extend_from_slice(b"ccddde");
    assert_eq!(patch, expected);
}

#[test]
fn encoder_output_does_not_depend_on_pieces() {
    let mut whole = Encoder::new(Compression::Best);
    whole.write(b"hello, hello, hello").unwrap();
    let mut pieces = Encoder::new(Compression::Best);
    for b in b"hello, hello, hello" {
        pieces.write(&[*b]).unwrap();
    }
    pieces.write(b"").unwrap();
    let stream = whole.finish().unwrap();
    assert_eq!(stream, pieces.finish().unwrap());
    let mut plain = Vec::new();
    bzip2::read::BzDecoder::new(&stream[..]).read_to_end(&mut plain).unwrap();
    assert_eq!(plain, b"hello, hello, hello");
}

#[test]
fn search_settles_on_moved_block() {
    let block = b"The quick brown fox jumps over it.";
    let mut s = b"0123456789".to_vec();
    s.extend_from_slice(block);
    let sa = SuffixArray::new(&s);
    let mut diff = SaDiff::new(&s, block, &sa, 12, 8, 256);
    // Nothing is added before the block, and the source moves to where it stands.
    assert_eq!(diff.next(), Some(control(0, 0, 10)));
    assert_eq!(diff.next(), Some(control(34, 0, 0)));
    assert_eq!(diff.next(), None);
    assert_eq!(diff.next(), None);
}

#[test]
fn gap_is_shrunk_from_both_sides() {
    let s = b"abcd1234efgh5678";
    let sa = SuffixArray::new(s);
    // The gap begins as the source does.
    let diff = SaDiff::new(s, b"abcdXYZefgh", &sa, 0, 8, 256);
    assert_eq!(diff.shrink_gap(8, 7), (4, 0));
    // The gap ends as the source does before the match.
    let diff = SaDiff::new(s, b"XYZ234efgh", &sa, 0, 8, 256);
    assert_eq!(diff.shrink_gap(8, 6), (0, 3));
}

#[test]
fn overlapping_sides_of_a_gap_are_divided() {
    let s = b"aaaabbbbccccdddd";
    let sa = SuffixArray::new(s);
    let diff = SaDiff::new(s, b"aaaaXbbbbcccc", &sa, 0, 8, 256);
    assert_eq!(diff.shrink_gap(16, 13), (12, 0));
    // Either side alone would take twelve bytes of the thirteen.
    assert_eq!(diff.shrink_gap(12, 13), (1, 12));
}

#[test]
fn advance_leads_to_the_match() {
    let s = b"abcd1234efgh5678";
    let sa = SuffixArray::new(s);
    let mut diff = SaDiff::new(s, b"abcdXYZefgh", &sa, 0, 8, 256);
    assert_eq!(diff.advance(8, 7, 4), control(4, 3, 4));
    assert_eq!(diff.next(), Some(control(4, 0, 4)));
    assert_eq!(diff.next(), None);
}

#[test]
fn chunks_are_searched_in_order() {
    let s: Vec<u8> = (0..=255).collect();
    let t: Vec<u8> = (0..100).chain(150..=255).collect();
    let sa = SuffixArray::new(&s);
    let ctrls = ParSaDiff::new(&s, &t, &sa, 60, 12, 8, 256).compute();
    let mut expected = Vec::new();
    for chunk in t.chunks(60) {
        let mut diff = SaDiff::new(&s, chunk, &sa, 12, 8, 256);
        expected.extend(diff.collect());
        expected.push(control(0, 0, -256));
    }
    assert_eq!(ctrls, expected);
    assert!(ParSaDiff::new(&s, b"", &sa, 60, 12, 8, 256).compute().is_empty());
}

#[test]
fn pack_returns_its_size() {
    let mut patch = Vec::new();
    let ctrls = [control(4, 1, -4), control(2, 0, 0)];
    let n = pack(b"abcdef", b"abcdXab", &ctrls, Compression::Fastest, 1, &mut patch).unwrap();
    assert_eq!(n, patch.len() as u64);
    assert_eq!(patch[24..32], encoded(7)[..]);
}

#[test]
fn matches_are_longer_than_the_threshold() {
    let s = b"the quick brown fox";
    let t = b"a quick brown cat";
    let sa = SuffixArray::new(s);
    // The match " quick brown " of 13 bytes is taken.
    let mut diff = SaDiff::new(s, t, &sa, 12, 0, 256);
    assert_eq!(diff.collect(), [control(0, 1, 3), control(13, 3, 3)]);
    // It is too small here: the ends of both files are compared, and found to be similar.
    let mut diff = SaDiff::new(s, t, &sa, 13, 0, 256);
    assert_eq!(diff.collect(), [control(0, 1, 3), control(16, 0, 0)]);
}

#[test]
fn run_returns_to_the_start_of_the_source() {
    let s = b"abcdefgh";
    let sa = SuffixArray::new(s);
    let mut diff = SaDiff::new(s, b"abcdxfgh", &sa, 12, 8, 256);
    let expected = [control(0, 0, 0), control(8, 0, 0), control(0, 0, -8)];
    assert_eq!(diff.run(), expected);
    assert_eq!(diff.search_next(), None);
    assert_eq!(diff.next(), None);
    assert_eq!(diff.collect(), []);
}

#[test]
fn different_data_have_different_streams() {
    let mut a = Encoder::new(Compression::Default);
    a.write(b"abc").unwrap();
    let mut b = Encoder::new(Compression::Default);
    b.write(b"abd").unwrap();
    assert_ne!(a.finish().unwrap(), b.finish().unwrap());
}

#[test]
fn search_next_changes_nothing() {
    let s = b"the quick brown fox";
    let t = b"a quick brown cat";
    let sa = SuffixArray::new(s);
    let mut diff = SaDiff::new(s, t, &sa, 12, 0, 256);
    assert_eq!(diff.search_next(), Some((3, 1, 13)));
    assert_eq!(diff.search_next(), Some((3, 1, 13)));
    assert_eq!(diff.next(), Some(control(0, 1, 3)));
    assert_eq!(diff.search_next(), Some((19, 17, 0)));
    assert_eq!(diff.search_next(), Some((19, 17, 0)));
    assert_eq!(diff.next(), Some(control(13, 3, 3)));
    assert_eq!(diff.search_next(), None);
    assert_eq!(diff.search_next(), None);
}

#[test]
fn dismatches_must_be_sufficient() {
    let s = b"the quick brown fox";
    let t = b"a quick brown cat";
    let sa = SuffixArray::new(s);
    // All 13 bytes of the match differ from what the start of the source predicts.
    let mut diff = SaDiff::new(s, t, &sa, 0, 12, 256);
    assert_eq!(diff.search_next(), Some((3, 1, 13)));
    let mut diff = SaDiff::new(s, t, &sa, 0, 13, 256);
    assert_eq!(diff.search_next(), Some((19, 17, 0)));
}
