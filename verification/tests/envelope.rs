//! The XPDL envelope: layout, every malformation, and the header reader.

use xpatchlib_core::envelope::{
    encode, parse, verify_base, verify_base_digest, verify_result, verify_streamed, FIXED_FIELDS,
};
use xpatchlib_core::{create, patch_info, Error};

fn sample() -> Vec<u8> {
    encode("bsdiff", b"old bundle", b"new bundle!", b"payload bytes")
}

#[test]
fn encode_lays_out_every_field() {
    let patch = sample();
    assert_eq!(&patch[0..4], b"XPDL");
    assert_eq!(patch[4], 1);
    assert_eq!(patch[5], 6);
    assert_eq!(&patch[6..12], b"bsdiff");
    assert_eq!(u64::from_le_bytes(patch[12..20].try_into().unwrap()), 10);
    assert_eq!(u64::from_le_bytes(patch[52..60].try_into().unwrap()), 11);
    assert_eq!(u64::from_le_bytes(patch[92..100].try_into().unwrap()), 13);
    assert_eq!(&patch[100..], b"payload bytes");
    assert_eq!(patch.len(), 6 + 6 + FIXED_FIELDS + 13);
}

#[test]
fn encode_pins_the_sha256_of_both_bundles() {
    // SHA-256 of the empty string.
    let empty: [u8; 32] = [
        0xe3, 0xb0, 0xc4, 0x42, 0x98, 0xfc, 0x1c, 0x14, 0x9a, 0xfb, 0xf4, 0xc8, 0x99, 0x6f, 0xb9,
        0x24, 0x27, 0xae, 0x41, 0xe4, 0x64, 0x9b, 0x93, 0x4c, 0xa4, 0x95, 0x99, 0x1b, 0x78, 0x52,
        0xb8, 0x55,
    ];
    let patch = encode("full", b"", b"abc", b"");
    assert_eq!(&patch[6 + 4 + 8..6 + 4 + 40], &empty[..]);
    // SHA-256 of "abc".
    assert_eq!(patch[6 + 4 + 48], 0xba);
    assert_eq!(patch[6 + 4 + 49], 0x78);
    assert_eq!(patch[6 + 4 + 79], 0xad);
}

#[test]
fn parse_gives_back_what_encode_wrote() {
    let patch = sample();
    let env = parse(&patch).unwrap();
    assert_eq!(env.algorithm, "bsdiff");
    assert_eq!(env.base_size, 10);
    assert_eq!(env.result_size, 11);
    assert_eq!(env.payload, b"payload bytes");
    assert_eq!(&env.base_hash[..], &patch[20..52]);
    assert_eq!(&env.result_hash[..], &patch[60..92]);
}

fn expect_corrupt(patch: &[u8]) {
    match parse(patch) {
        Err(Error::CorruptPatch(_)) => {}
        Err(other) => panic!("expected CorruptPatch, got {other:?}"),
        Ok(_) => panic!("expected CorruptPatch, got a parsed envelope"),
    }
}

#[test]
fn parse_rejects_every_malformation() {
    let patch = sample();
    expect_corrupt(&patch[..5]);
    let mut bad = patch.clone();
    bad[1] = b'Q';
    expect_corrupt(&bad);
    let mut bad = patch.clone();
    bad[4] = 2;
    expect_corrupt(&bad);
    let mut bad = patch.clone();
    bad[5] = 0;
    expect_corrupt(&bad);
    let mut bad = patch.clone();
    bad[5] = 65;
    expect_corrupt(&bad);
    expect_corrupt(&patch[..6 + 6 + FIXED_FIELDS - 1]);
    let mut bad = patch.clone();
    bad[6] = 0xff;
    expect_corrupt(&bad);
    expect_corrupt(&patch[..patch.len() - 1]);
    let mut longer = patch.clone();
    longer.push(0);
    expect_corrupt(&longer);
}

#[test]
fn verify_base_reports_both_sizes() {
    let patch = sample();
    let env = parse(&patch).unwrap();
    assert!(verify_base(&env, b"old bundle").is_ok());
    match verify_base(&env, b"old") {
        Err(Error::BaseMismatch { have, expect }) => {
            assert_eq!(have, 3);
            assert_eq!(expect, 10);
        }
        other => panic!("expected BaseMismatch, got {other:?}"),
    }
    match verify_base(&env, b"OLD bundle") {
        Err(Error::BaseMismatch { have, expect }) => {
            assert_eq!(have, 10);
            assert_eq!(expect, 10);
        }
        other => panic!("expected BaseMismatch, got {other:?}"),
    }
}

#[test]
fn verify_result_checks_size_and_digest() {
    let patch = sample();
    let env = parse(&patch).unwrap();
    assert!(verify_result(&env, b"new bundle!").is_ok());
    assert!(matches!(verify_result(&env, b"new bundle"), Err(Error::ChecksumMismatch)));
    assert!(matches!(verify_result(&env, b"new bundle?"), Err(Error::ChecksumMismatch)));
}

#[test]
fn patch_info_reads_the_header() {
    let base = b"header base".to_vec();
    let updated = b"header base, updated".to_vec();
    let patch = create("full", &base, &updated).unwrap();
    let info = patch_info(&patch).unwrap();
    assert_eq!(info.algorithm, "full");
    assert_eq!(info.base_size, base.len() as u64);
    assert_eq!(info.result_size, updated.len() as u64);
    assert_eq!(info.payload_len as usize, patch.len() - (6 + 4 + FIXED_FIELDS));
    assert_eq!(&info.base_hash[..], &patch[6 + 4 + 8..6 + 4 + 40]);
    assert_eq!(&info.result_hash[..], &patch[6 + 4 + 48..6 + 4 + 80]);
    assert!(matches!(patch_info(&patch[..10]), Err(Error::CorruptPatch(_))));
}

#[test]
fn parse_rejects_a_non_ascii_name() {
    // "é" is valid UTF-8 but not ASCII.
    let patch = encode("\u{e9}", b"base", b"next", b"p");
    assert!(matches!(parse(&patch), Err(Error::CorruptPatch(_))));
    assert!(parse(&encode("full", b"base", b"next", b"p")).is_ok());
}

#[test]
fn streamed_checks_compare_size_and_digest() {
    let patch = sample();
    let env = parse(&patch).unwrap();
    let base_hash = env.base_hash;
    let result_hash = env.result_hash;
    assert!(verify_base_digest(&env, 10, &base_hash).is_ok());
    match verify_base_digest(&env, 9, &base_hash) {
        Err(Error::BaseMismatch { have, expect }) => assert_eq!((have, expect), (9, 10)),
        other => panic!("expected BaseMismatch, got {other:?}"),
    }
    match verify_base_digest(&env, 10, &result_hash) {
        Err(Error::BaseMismatch { have, expect }) => assert_eq!((have, expect), (10, 10)),
        other => panic!("expected BaseMismatch, got {other:?}"),
    }
    assert!(verify_streamed(&env, 11, &result_hash).is_ok());
    assert!(matches!(verify_streamed(&env, 12, &result_hash), Err(Error::ChecksumMismatch)));
    assert!(matches!(verify_streamed(&env, 11, &base_hash), Err(Error::ChecksumMismatch)));
}
