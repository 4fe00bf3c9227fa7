//! The control stream: replay semantics, its bounds, the stream framing and
//! the producer helpers that build it.

use xpatchlib_core::block::{window_fingerprint, BlockIndex, WINDOW};
use xpatchlib_core::bsdiff::{common_prefix, compare_suffix, longest_match};
use xpatchlib_core::control::{
    apply_control_stream, decode_control_stream, serialize_segments, zstd_compress,
    zstd_decompress, ControlTuple, Segment, SegmentBuilder, STREAM_HEADER, TUPLE_SIZE,
};
use xpatchlib_core::sais::suffix_array;
use xpatchlib_core::zdict::{window_log_for, MAX_WINDOW_LOG, MIN_WINDOW_LOG};
use xpatchlib_core::Error;

fn t(add: i64, copy: i64, seek: i64) -> ControlTuple {
    ControlTuple { add, copy, seek }
}

#[test]
fn replay_adds_copies_and_seeks() {
    let base = b"abcdef";
    // add 3 from base[0..3] with deltas (0,1,0), copy "XY", seek +1 to 4,
    // then add 2 from base[4..6].
    let tuples = [t(3, 2, 4), t(2, 0, 0)];
    let out = apply_control_stream(base, &tuples, &[0, 1, 0, 0, 0], b"XY", 7).unwrap();
    assert_eq!(out, b"accXYef");
}

#[test]
fn replay_wraps_deltas_modulo_256() {
    let out = apply_control_stream(&[250, 3], &[t(2, 0, 0)], &[10, 255], b"", 2).unwrap();
    assert_eq!(out, vec![4, 2]);
}

#[test]
fn replay_seeks_backwards() {
    let base = b"0123456789";
    let tuples = [t(2, 0, 8), t(2, 0, -6), t(2, 0, 0)];
    let out = apply_control_stream(base, &tuples, &[0; 6], b"", 6).unwrap();
    assert_eq!(out, b"018923");
}

fn corrupt(res: Result<Vec<u8>, Error>) {
    match res {
        Err(Error::CorruptPatch(_)) => {}
        other => panic!("expected CorruptPatch, got {other:?}"),
    }
}

#[test]
fn replay_enforces_every_bound() {
    let base = b"abcdef";
    corrupt(apply_control_stream(base, &[t(-1, 0, 0)], b"", b"", 0));
    corrupt(apply_control_stream(base, &[t(0, -1, 0)], b"", b"", 0));
    corrupt(apply_control_stream(base, &[t(2, 0, 0)], &[0], b"", 2));
    corrupt(apply_control_stream(base, &[t(0, 2, 0)], b"", b"x", 2));
    corrupt(apply_control_stream(base, &[t(2, 0, 0)], &[0, 0], b"", 1));
    corrupt(apply_control_stream(base, &[t(1, 0, 6), t(1, 0, 0)], &[0, 0], b"", 2));
    corrupt(apply_control_stream(base, &[t(0, 0, -1), t(1, 0, 0)], &[0], b"", 1));
    corrupt(apply_control_stream(base, &[t(1, 0, 0)], &[0], b"", 2));
    corrupt(apply_control_stream(base, &[], b"", b"", u64::MAX));
}

#[test]
fn replay_of_no_tuples_is_empty() {
    assert_eq!(apply_control_stream(b"abc", &[], b"", b"", 0).unwrap(), Vec::<u8>::new());
}

#[test]
fn serialize_then_decode_gives_the_streams_back() {
    let base = b"hello world, hello base";
    let updated = b"hello WORLD, hello base!";
    let segments = vec![
        Segment::Copy { pos: 0, len: 6 },
        Segment::Extra(b"WORLD".to_vec()),
        Segment::Copy { pos: 11, len: 12 },
        Segment::Extra(b"!".to_vec()),
    ];
    let payload = serialize_segments(base, updated, &segments).unwrap();
    assert_eq!(&payload[..4], b"XPBS");
    assert_eq!(payload[4], 1);
    let (tuples, diff, extra) = decode_control_stream(&payload, updated.len() as u64).unwrap();
    assert_eq!(tuples.len(), 2);
    assert_eq!((tuples[0].add, tuples[0].copy, tuples[0].seek), (6, 5, 11));
    assert_eq!((tuples[1].add, tuples[1].copy, tuples[1].seek), (12, 1, 0));
    assert_eq!(diff, vec![0u8; 18]);
    assert_eq!(extra, b"WORLD!");
    let out = apply_control_stream(base, &tuples, &diff, &extra, updated.len() as u64).unwrap();
    assert_eq!(out, updated);
}

#[test]
fn serialize_records_byte_deltas() {
    let base = b"AAAA";
    let updated = b"ABAC";
    let payload = serialize_segments(base, updated, &[Segment::Copy { pos: 0, len: 4 }]).unwrap();
    let (tuples, diff, extra) = decode_control_stream(&payload, 4).unwrap();
    assert_eq!(tuples.len(), 1);
    assert_eq!(diff, vec![0, 1, 0, 2]);
    assert!(extra.is_empty());
}

#[test]
fn decode_rejects_malformed_streams() {
    let base = b"abc";
    let payload = serialize_segments(base, b"abc", &[Segment::Copy { pos: 0, len: 3 }]).unwrap();
    assert!(payload.len() > STREAM_HEADER);
    assert!(matches!(decode_control_stream(&payload[..STREAM_HEADER - 1], 3), Err(Error::CorruptPatch(_))));
    let mut bad = payload.clone();
    bad[0] = b'Q';
    assert!(matches!(decode_control_stream(&bad, 3), Err(Error::CorruptPatch(_))));
    let mut bad = payload.clone();
    bad[4] = 9;
    assert!(matches!(decode_control_stream(&bad, 3), Err(Error::CorruptPatch(_))));
    assert!(matches!(decode_control_stream(&payload[..payload.len() - 1], 3), Err(Error::CorruptPatch(_))));
    let mut longer = payload.clone();
    longer.push(0);
    assert!(matches!(decode_control_stream(&longer, 3), Err(Error::CorruptPatch(_))));
    assert_eq!(TUPLE_SIZE, 24);
}

#[test]
fn zstd_streams_round_trip_under_their_cap() {
    let data = b"zstd zstd zstd zstd zstd".to_vec();
    let frame = zstd_compress(&data).unwrap();
    assert!(!frame.is_empty());
    assert_eq!(zstd_compress(&data).unwrap(), frame);
    assert_eq!(zstd_decompress(&frame, data.len() as u64).unwrap(), data);
    assert!(matches!(zstd_decompress(&frame, 3), Err(Error::CorruptPatch(_))));
    assert_eq!(zstd_decompress(b"", 0).unwrap(), Vec::<u8>::new());
    assert!(matches!(zstd_decompress(b"junk", 100), Err(Error::CorruptPatch(_))));
}

#[test]
fn builder_flushes_the_tail_before_a_match() {
    let mut b = SegmentBuilder::new();
    b.extra(b'x');
    b.extra(b'y');
    b.extra(b'z');
    assert_eq!(b.pending_len(), 3);
    b.reclaim_pending(1);
    assert_eq!(b.pending_len(), 2);
    b.reclaim_pending(5);
    assert_eq!(b.pending_len(), 2);
    b.match_region(2, 4, 10);
    assert_eq!(b.pending_len(), 0);
    b.extra(b'w');
    let segs = b.finish();
    assert_eq!(segs.len(), 3);
    assert!(matches!(&segs[0], Segment::Extra(d) if d == b"xy"));
    assert!(matches!(segs[1], Segment::Copy { pos: 10, len: 4 }));
    assert!(matches!(&segs[2], Segment::Extra(d) if d == b"w"));
}

#[test]
fn common_prefix_and_suffix_order() {
    let base = b"banana";
    assert_eq!(common_prefix(base, 1, b"anas"), 3);
    assert_eq!(common_prefix(base, 6, b"a"), 0);
    assert_eq!(common_prefix(base, 0, b"ban"), 3);
    assert_eq!(compare_suffix(base, 1, b"anana"), 0);
    assert_eq!(compare_suffix(base, 1, b"anb"), -1);
    assert_eq!(compare_suffix(base, 1, b"an"), 1);
    assert_eq!(compare_suffix(base, 6, b""), 0);
    assert_eq!(compare_suffix(base, 6, b"a"), -1);
}

#[test]
fn longest_match_finds_a_real_match() {
    let base = b"the cat sat on the mat";
    let sa = suffix_array(base);
    let updated = b"a cat sat there";
    let (len, pos) = longest_match(&sa, base, updated, 1);
    assert_eq!(len, 9);
    assert_eq!(&base[pos..pos + len], &updated[1..1 + len]);
}

#[test]
fn fingerprint_is_fnv1a() {
    assert_eq!(window_fingerprint(b""), 0x811c9dc5);
    assert_eq!(window_fingerprint(b"a"), 0xe40c292c);
    assert_eq!(window_fingerprint(b"foobar"), 0xbf9cf968);
}

#[test]
fn block_index_returns_verified_positions() {
    let mut base = Vec::new();
    for i in 0..4u8 {
        base.extend_from_slice(&[i; WINDOW]);
    }
    base.extend_from_slice(&[1u8; WINDOW]);
    let index = BlockIndex::build(&base);
    let hits = index.candidates(window_fingerprint(&[1u8; WINDOW]));
    assert_eq!(hits, vec![16, 64]);
    assert!(index.candidates(window_fingerprint(&[9u8; WINDOW])).is_empty());
}

#[test]
fn block_index_finds_every_window() {
    let base: Vec<u8> = (0..96u32).map(|i| (i * 37 % 251) as u8).collect();
    let index = BlockIndex::build(&base);
    for p in 0..=base.len() - WINDOW {
        let hits = index.candidates(window_fingerprint(&base[p..p + WINDOW]));
        assert!(hits.contains(&(p as i32)), "window at {p} not found");
        assert!(hits.windows(2).all(|w| w[0] < w[1]));
    }
}

#[test]
fn window_log_covers_the_span() {
    assert_eq!(window_log_for(0), MIN_WINDOW_LOG);
    assert_eq!(window_log_for(1 << 17), 17);
    assert_eq!(window_log_for((1 << 17) + 1), 18);
    assert_eq!(window_log_for(3 << 20), 22);
    assert_eq!(window_log_for(usize::MAX), MAX_WINDOW_LOG);
}

#[test]
fn serialize_accepts_any_in_range_segments() {
    let base = b"abcdef";
    let updated = b"xyz123";
    let segments = vec![
        Segment::Copy { pos: 0, len: 2 },
        Segment::Extra(b"QQ".to_vec()),
        Segment::Copy { pos: 2, len: 0 },
        Segment::Extra(Vec::new()),
    ];
    let payload = serialize_segments(base, updated, &segments).unwrap();
    assert_eq!(&payload[..4], b"XPBS");
    let (tuples, diff, extra) = decode_control_stream(&payload, 6).unwrap();
    assert_eq!(tuples.iter().map(|t| t.add).sum::<i64>(), 2);
    assert_eq!(tuples.iter().map(|t| t.copy).sum::<i64>(), 2);
    assert_eq!(diff, vec![b'x'.wrapping_sub(b'a'), b'y'.wrapping_sub(b'b')]);
    assert_eq!(extra, b"QQ");
}
