use bzip2::read::BzDecoder;
use qbsdiff::{Bsdiff, Compression, MAX_LENGTH};
use std::io::Read;

/// Pseudo-random bytes.
fn noise(seed: u64, len: usize) -> Vec<u8> {
    let mut x = seed.wrapping_mul(0x9e37_79b9_7f4a_7c15) | 1;
    let mut bytes = Vec::with_capacity(len);
    while bytes.len() < len {
        x ^= x << 13;
        x ^= x >> 7;
        x ^= x << 17;
        bytes.push((x >> 32) as u8);
    }
    bytes
}

fn read_int(b: &[u8]) -> i64 {
    let mut v: u64 = 0;
    for k in (0..8).rev() {
        v = v << 8 | b[k] as u64;
    }
    if v >> 63 == 0 {
        v as i64
    } else {
        -((v & !(1 << 63)) as i64)
    }
}

fn unpack(b: &[u8]) -> Vec<u8> {
    let mut plain = Vec::new();
    BzDecoder::new(b).read_to_end(&mut plain).unwrap();
    plain
}

/// The control, delta and extra streams of a patch, and the size of the target.
fn streams(patch: &[u8]) -> (Vec<u8>, Vec<u8>, Vec<u8>, usize) {
    assert_eq!(&patch[..8], b"BSDIFF40");
    let c = 32 + read_int(&patch[8..16]) as usize;
    let d = c + read_int(&patch[16..24]) as usize;
    let n = read_int(&patch[24..32]) as usize;
    (unpack(&patch[32..c]), unpack(&patch[c..d]), unpack(&patch[d..]), n)
}

fn controls(stream: &[u8]) -> Vec<(i64, i64, i64)> {
    assert_eq!(stream.len() % 24, 0);
    stream
        .chunks(24)
        .map(|b| (read_int(&b[..8]), read_int(&b[8..16]), read_int(&b[16..])))
        .collect()
}

/// Applies a patch.
fn bspatch(source: &[u8], patch: &[u8]) -> Vec<u8> {
    let (c, delta, extra, n) = streams(patch);
    let mut out = Vec::new();
    let (mut spos, mut dpos, mut epos) = (0i64, 0usize, 0usize);
    for (add, copy, seek) in controls(&c) {
        for x in 0..add as usize {
            out.push(source[spos as usize + x].wrapping_add(delta[dpos + x]));
        }
        out.extend_from_slice(&extra[epos..epos + copy as usize]);
        spos += add + seek;
        dpos += add as usize;
        epos += copy as usize;
    }
    assert_eq!(out.len(), n);
    assert_eq!(dpos, delta.len());
    assert_eq!(epos, extra.len());
    out
}

fn patch_of(diff: Bsdiff) -> Vec<u8> {
    let mut patch = Vec::new();
    let n = diff.compare(&mut patch).unwrap();
    assert_eq!(n, patch.len() as u64);
    patch
}

/// A source, and a target made of its parts, moved about, with bytes changed and put in.
fn edited(seed: u64, len: usize) -> (Vec<u8>, Vec<u8>) {
    let source = noise(seed, len);
    let mut target = Vec::new();
    target.extend_from_slice(&source[len / 2..]);
    target.extend_from_slice(&noise(seed + 1, len / 10));
    target.extend_from_slice(&source[..len / 2]);
    for k in (0..target.len()).step_by(37) {
        target[k] = target[k].wrapping_add(1);
    }
    target.extend_from_slice(&source[len / 4..len / 3]);
    (source, target)
}

#[test]
fn patch_restores_edited_target() {
    for seed in 1..20 {
        let (s, t) = edited(seed, 300 * seed as usize);
        assert_eq!(bspatch(&s, &patch_of(Bsdiff::new(&s, &t))), t);
    }
}

#[test]
fn patch_restores_target_in_parallel() {
    for seed in 1..12 {
        let (s, t) = edited(seed, 400 * seed as usize);
        for chunk in [1, 7, 100, 1024, t.len(), t.len() + 1] {
            let patch = patch_of(Bsdiff::new(&s, &t).parallel(chunk));
            assert_eq!(bspatch(&s, &patch), t);
        }
    }
}

#[test]
fn patch_restores_target_at_any_threshold() {
    let (s, t) = edited(5, 2000);
    for small in [0, 1, 12, 40, 5000, usize::MAX] {
        let patch = patch_of(Bsdiff::new(&s, &t).small_match(small));
        assert_eq!(bspatch(&s, &patch), t);
    }
}

#[test]
fn patch_restores_repetitive_target() {
    let s: Vec<u8> = b"abcabcabd".iter().cycle().take(3000).cloned().collect();
    let mut t = s.clone();
    t.truncate(2500);
    for k in (0..t.len()).step_by(500) {
        t[k] = b'z';
    }
    t.extend_from_slice(&s[100..2000]);
    assert_eq!(bspatch(&s, &patch_of(Bsdiff::new(&s, &t))), t);
    assert_eq!(bspatch(&s, &patch_of(Bsdiff::new(&s, &t).parallel(600))), t);
}

#[test]
fn patch_of_similar_files_is_small() {
    let s = noise(3, 100_000);
    let mut t = s.clone();
    t[50_000] ^= 0xff;
    t.splice(20_000..20_000, noise(4, 100));
    let patch = patch_of(Bsdiff::new(&s, &t));
    assert_eq!(bspatch(&s, &patch), t);
    assert!(patch.len() < 2000);
}

#[test]
fn empty_target_needs_no_controls() {
    let patch = patch_of(Bsdiff::new(b"something", b""));
    let (c, d, e, n) = streams(&patch);
    assert_eq!((c.len(), d.len(), e.len(), n), (0, 0, 0, 0));
    // Three empty bzip2 streams of 14 bytes each.
    assert_eq!(patch.len(), 32 + 3 * 14);
    let patch = patch_of(Bsdiff::new(b"something", b"").parallel(4));
    assert_eq!(streams(&patch).0.len(), 0);
}

#[test]
fn empty_source_copies_all() {
    let (c, d, e, n) = streams(&patch_of(Bsdiff::new(b"", b"abc")));
    assert_eq!(controls(&c), vec![(0, 3, 0)]);
    assert!(d.is_empty());
    assert_eq!(e, b"abc");
    assert_eq!(n, 3);
}

#[test]
fn equal_files_give_zero_delta() {
    let s = noise(8, 40);
    let (c, d, e, _) = streams(&patch_of(Bsdiff::new(&s, &s)));
    assert_eq!(controls(&c), vec![(0, 0, 0), (40, 0, 0)]);
    assert_eq!(d, vec![0; 40]);
    assert!(e.is_empty());
}

#[test]
fn delta_is_target_minus_source() {
    let (c, d, e, _) = streams(&patch_of(Bsdiff::new(b"abcdefgh", b"abcdxfgh")));
    assert_eq!(controls(&c), vec![(0, 0, 0), (8, 0, 0)]);
    assert_eq!(d, vec![0, 0, 0, 0, b'x' - b'e', 0, 0, 0]);
    assert!(e.is_empty());
}

#[test]
fn chunks_rewind_source() {
    let s = noise(9, 40);
    let (c, d, _, _) = streams(&patch_of(Bsdiff::new(&s, &s).parallel(40)));
    assert_eq!(controls(&c), vec![(0, 0, 0), (40, 0, 0), (0, 0, -40)]);
    assert_eq!(d, vec![0; 40]);
}

#[test]
fn parallel_zero_disables() {
    let (s, t) = edited(6, 1500);
    assert_eq!(
        patch_of(Bsdiff::new(&s, &t).parallel(100).parallel(0)),
        patch_of(Bsdiff::new(&s, &t)),
    );
}

#[test]
fn buffer_size_makes_no_difference() {
    let (s, t) = edited(7, 3000);
    let patch = patch_of(Bsdiff::new(&s, &t));
    for bs in [0, 1, 128, 129, 1000, usize::MAX] {
        assert_eq!(patch_of(Bsdiff::new(&s, &t).buffer_size(bs)), patch);
    }
}

#[test]
fn level_goes_to_the_encoder() {
    let (s, t) = edited(2, 900);
    for (lv, digit) in [
        (Compression::Fastest, b'1'),
        (Compression::Best, b'9'),
        (Compression::Default, b'6'),
    ] {
        let patch = patch_of(Bsdiff::new(&s, &t).compression_level(lv));
        assert_eq!(&patch[32..35], b"BZh");
        assert_eq!(patch[35], digit);
        assert_eq!(bspatch(&s, &patch), t);
    }
    assert_eq!(qbsdiff::LEVEL, Compression::Default);
}

#[test]
fn compare_appends_to_patch() {
    let mut patch = b"before".to_vec();
    let n = Bsdiff::new(b"abc", b"abd").compare(&mut patch).unwrap();
    assert_eq!(&patch[..6], b"before");
    assert_eq!(patch.len() as u64, 6 + n);
    assert_eq!(bspatch(b"abc", &patch[6..]), b"abd");
}

#[test]
fn source_and_target_can_be_set() {
    let (s, t) = edited(4, 700);
    let patch = patch_of(Bsdiff::new(b"", b"").source(&s).target(&t));
    assert_eq!(patch, patch_of(Bsdiff::new(&s, &t)));
}

#[test]
fn streams_are_as_long_as_target() {
    let (s, t) = edited(11, 1234);
    let (_, d, e, n) = streams(&patch_of(Bsdiff::new(&s, &t)));
    assert_eq!(d.len() + e.len(), t.len());
    assert_eq!(n, t.len());
}

#[test]
fn limit_is_that_of_the_index() {
    assert_eq!(MAX_LENGTH, suffix_array::MAX_LENGTH);
    assert_eq!(qbsdiff::SMALL_MATCH, 12);
    assert_eq!(qbsdiff::BUFFER_SIZE, 4096);
}

#[test]
fn level_makes_no_difference_to_streams() {
    let (s, t) = edited(13, 1100);
    let of = |lv| streams(&patch_of(Bsdiff::new(&s, &t).compression_level(lv)));
    assert_eq!(of(Compression::Fastest), of(Compression::Best));
    assert_eq!(of(Compression::Default), of(Compression::Best));
}

#[test]
fn patch_gives_one_target_only() {
    let (s, t) = edited(14, 800);
    let mut u = t.clone();
    u[400] ^= 1;
    assert_ne!(patch_of(Bsdiff::new(&s, &t)), patch_of(Bsdiff::new(&s, &u)));
}
