//! The codec registry, error variants, status codes and the laws of
//! create / apply on small concrete bundles.

use xpatchlib_core::envelope::FIXED_FIELDS;
use xpatchlib_core::full::{admit_chunk, stream_start};
use xpatchlib_core::{
    algorithms, apply, codec, create, status, Algorithm, Codec, Error, XPATCHLIB_ERR_BASE_MISMATCH,
    XPATCHLIB_ERR_CHECKSUM, XPATCHLIB_ERR_CODEC, XPATCHLIB_ERR_CORRUPT_PATCH,
    XPATCHLIB_ERR_INVALID_ARG, XPATCHLIB_ERR_IO, XPATCHLIB_ERR_UNKNOWN_ALGORITHM, XPATCHLIB_OK,
};

const BASE: &[u8] = b"the quick brown fox jumps over the lazy dog; the quick brown fox again";
const UPDATED: &[u8] = b"the quick brown fox leaps over the lazy dog; the quick brown fox again!";

#[test]
fn codec_finds_every_registered_name() {
    assert_eq!(codec("bsdiff").unwrap(), Algorithm::Bsdiff);
    assert_eq!(codec("zdict").unwrap(), Algorithm::Zdict);
    assert_eq!(codec("block").unwrap(), Algorithm::Block);
    assert_eq!(codec("full").unwrap(), Algorithm::Full);
    for name in algorithms() {
        assert_eq!(codec(name).unwrap().name(), name);
    }
}

#[test]
fn codec_rejects_unknown_names() {
    match codec("xdelta") {
        Err(Error::UnknownAlgorithm(name)) => assert_eq!(name, "xdelta"),
        other => panic!("expected UnknownAlgorithm, got {other:?}"),
    }
    assert!(matches!(codec("BSDIFF"), Err(Error::UnknownAlgorithm(_))));
    assert!(matches!(codec(""), Err(Error::UnknownAlgorithm(_))));
}

#[test]
fn create_rejects_unknown_algorithm() {
    match create("lzma", BASE, UPDATED) {
        Err(Error::UnknownAlgorithm(name)) => assert_eq!(name, "lzma"),
        other => panic!("expected UnknownAlgorithm, got {other:?}"),
    }
}

#[test]
fn apply_inverts_create_for_every_codec() {
    for name in algorithms() {
        let patch = create(name, BASE, UPDATED).unwrap();
        assert_eq!(apply(&patch, BASE).unwrap(), UPDATED, "{name}");
        let back = create(name, UPDATED, BASE).unwrap();
        assert_eq!(apply(&back, UPDATED).unwrap(), BASE, "{name}");
    }
}

#[test]
fn patch_names_the_codec_that_built_it() {
    for name in algorithms() {
        let patch = create(name, BASE, UPDATED).unwrap();
        assert_eq!(patch[5] as usize, name.len());
        assert_eq!(&patch[6..6 + name.len()], name.as_bytes());
    }
}

#[test]
fn apply_reports_base_mismatch_with_sizes() {
    let patch = create("block", BASE, UPDATED).unwrap();
    match apply(&patch, b"short") {
        Err(Error::BaseMismatch { have, expect }) => {
            assert_eq!(have, 5);
            assert_eq!(expect, BASE.len() as u64);
        }
        other => panic!("expected BaseMismatch, got {other:?}"),
    }
}

#[test]
fn apply_reports_unknown_algorithm_in_a_wellformed_envelope() {
    let mut patch = create("full", BASE, UPDATED).unwrap();
    patch[6] = b'F';
    match apply(&patch, BASE) {
        Err(Error::UnknownAlgorithm(name)) => assert_eq!(name, "Full"),
        other => panic!("expected UnknownAlgorithm, got {other:?}"),
    }
}

#[test]
fn apply_refuses_a_forged_result_digest() {
    for name in algorithms() {
        let mut patch = create(name, BASE, UPDATED).unwrap();
        let result_hash = 6 + name.len() + 48;
        patch[result_hash] ^= 0x01;
        match apply(&patch, BASE) {
            Err(Error::ChecksumMismatch) => {}
            other => panic!("{name}: expected ChecksumMismatch, got {other:?}"),
        }
    }
}

#[test]
fn apply_refuses_a_forged_result_size() {
    let mut patch = create("bsdiff", BASE, UPDATED).unwrap();
    let result_size = 6 + 6 + 40;
    patch[result_size] = patch[result_size].wrapping_add(1);
    assert!(apply(&patch, BASE).is_err());
}

#[test]
fn apply_rejects_garbage_as_corrupt() {
    assert!(matches!(apply(b"", BASE), Err(Error::CorruptPatch(_))));
    assert!(matches!(apply(b"not a patch at all", BASE), Err(Error::CorruptPatch(_))));
}

#[test]
fn full_payload_decodes_through_the_codec() {
    let payload = Algorithm::Full.create(BASE, UPDATED).unwrap();
    assert!(!payload.is_empty());
    let out = Algorithm::Full.apply(BASE, &payload, UPDATED.len() as u64).unwrap();
    assert_eq!(out, UPDATED);
    // An empty payload stands for an empty bundle only.
    assert_eq!(Algorithm::Full.apply(BASE, b"", 0).unwrap(), Vec::<u8>::new());
    assert!(Algorithm::Full.apply(BASE, b"", 3).is_err());
}

#[test]
fn control_codecs_round_trip_their_payloads() {
    for a in [Algorithm::Bsdiff, Algorithm::Block] {
        let payload = a.create(BASE, UPDATED).unwrap();
        let out = a.apply(BASE, &payload, UPDATED.len() as u64).unwrap();
        assert_eq!(out, UPDATED);
        assert!(a.apply(BASE, &payload, UPDATED.len() as u64 - 1).is_err());
    }
}

#[test]
fn zdict_payload_round_trips() {
    let payload = Algorithm::Zdict.create(BASE, UPDATED).unwrap();
    assert!(!payload.is_empty());
    let out = Algorithm::Zdict.apply(BASE, &payload, UPDATED.len() as u64).unwrap();
    assert_eq!(out, UPDATED);
}

#[test]
fn empty_result_round_trips() {
    for name in algorithms() {
        let patch = create(name, BASE, b"").unwrap();
        assert!(patch.len() >= 6 + name.len() + FIXED_FIELDS);
        assert_eq!(apply(&patch, BASE).unwrap(), Vec::<u8>::new(), "{name}");
    }
}

#[test]
fn status_codes_follow_the_error_kind() {
    assert_eq!(XPATCHLIB_OK, 0);
    assert_eq!(status(&Error::UnknownAlgorithm("x".into())), XPATCHLIB_ERR_UNKNOWN_ALGORITHM);
    assert_eq!(status(&Error::CorruptPatch("x".into())), XPATCHLIB_ERR_CORRUPT_PATCH);
    assert_eq!(status(&Error::BaseMismatch { have: 1, expect: 2 }), XPATCHLIB_ERR_BASE_MISMATCH);
    assert_eq!(status(&Error::ChecksumMismatch), XPATCHLIB_ERR_CHECKSUM);
    assert_eq!(status(&Error::Codec("x".into())), XPATCHLIB_ERR_CODEC);
    assert_eq!(status(&Error::Io("x".into())), XPATCHLIB_ERR_IO);
    assert_eq!(
        [
            XPATCHLIB_ERR_UNKNOWN_ALGORITHM,
            XPATCHLIB_ERR_CORRUPT_PATCH,
            XPATCHLIB_ERR_BASE_MISMATCH,
            XPATCHLIB_ERR_CHECKSUM,
            XPATCHLIB_ERR_CODEC,
            XPATCHLIB_ERR_INVALID_ARG,
            XPATCHLIB_ERR_IO
        ],
        [1, 2, 3, 4, 5, 6, 7]
    );
}

#[test]
fn full_stream_steps_bound_the_output() {
    assert!(!stream_start(0, 0).unwrap());
    assert!(matches!(stream_start(0, 5), Err(Error::CorruptPatch(_))));
    assert!(stream_start(3, 5).unwrap());
    assert_eq!(admit_chunk(0, 3, 5).unwrap(), 3);
    assert_eq!(admit_chunk(3, 2, 5).unwrap(), 5);
    assert!(matches!(admit_chunk(3, 3, 5), Err(Error::CorruptPatch(_))));
}

#[test]
fn every_codec_produces_a_patch_for_ordinary_bundles() {
    for name in algorithms() {
        assert!(create(name, b"", b"").is_ok(), "{name}");
        assert!(create(name, BASE, UPDATED).is_ok(), "{name}");
    }
}
