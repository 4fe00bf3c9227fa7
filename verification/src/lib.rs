//! Deterministic binary delta patches for app update bundles.
//!
//! Producers build patches with [`create`] and clients replay them with
//! [`apply`]; both wrap the codec payload in a versioned envelope ("XPDL")
//! that pins the SHA-256 of both the base and the resulting bundle so
//! clients can verify integrity end to end.
//!
//! The envelope omits timestamps and other run-varying metadata: for a fixed
//! codec, `create` is a function of its inputs, which lets patches live in
//! content-addressed object stores alongside the bundles they upgrade.
//!
//! Registered codecs: `bsdiff` (smallest patches, suffix-array producer),
//! `zdict` (base as zstd dictionary, fastest both ways), `block`
//! (fingerprint greedy matcher), `full` (recompressed baseline).
pub mod block;
pub mod bsdiff;
mod bytes;
mod compress;
pub mod control;
mod digest;
pub mod envelope;
mod error;
pub mod full;
pub mod sais;
pub mod suffix_check;
pub mod zdict;

pub use block::Block;
pub use bsdiff::Bsdiff;
pub use error::{
    status, Error, Result, XPATCHLIB_ERR_BASE_MISMATCH, XPATCHLIB_ERR_CHECKSUM, XPATCHLIB_ERR_CODEC,
    XPATCHLIB_ERR_CORRUPT_PATCH, XPATCHLIB_ERR_INVALID_ARG, XPATCHLIB_ERR_IO, XPATCHLIB_ERR_UNKNOWN_ALGORITHM,
    XPATCHLIB_OK,
};
pub use full::Full;
pub use zdict::Zdict;

use vstd::prelude::*;
use vstd::string::StringSliceAdditionalSpecFns;

use crate::bytes::same_bytes;
use crate::control::{control_apply_result, control_payload, replayed_from};
use crate::digest::sha256_of;
use crate::envelope::{
    envelope_bytes, envelope_ok, fields_at, lemma_parse_encoded, name_bytes, payload_of,
};
use crate::block::{block_payload, lemma_block_payload_unique};
use crate::bsdiff::{bsdiff_payload, lemma_bsdiff_payload_unique};
use crate::full::{full_apply_result, full_payload};
use crate::zdict::{zdict_apply_result, zdict_payload};
use crate::bytes::le_u64;
use crate::compress::{zstd_content, zstd_dict_content, zstd_dict_magic};

verus! {

/// One delta codec: a stable name, the producer and the replay.
pub trait Codec {
    /// Identifier stored in the envelope; short and stable ("bsdiff", ...).
    fn name(&self) -> &'static str;

    /// Encodes the payload needed to rebuild `updated` from `base`.
    fn create(&self, base: &[u8], updated: &[u8]) -> Result<Vec<u8>>;

    /// Rebuilds `updated` from `base` and `payload`. `expected_new_size` is
    /// the size recorded in the envelope and bounds decompression and
    /// output buffers.
    fn apply(&self, base: &[u8], payload: &[u8], expected_new_size: u64) -> Result<Vec<u8>>;
}

/// The registered codecs.
#[derive(Clone, Copy, Debug, PartialEq, Eq, Structural)]
pub enum Algorithm {
    Bsdiff,
    Zdict,
    Block,
    Full,
}

/// The name bytes a codec is registered under.
pub open spec fn algorithm_bytes(a: Algorithm) -> Seq<u8> {
    match a {
        Algorithm::Bsdiff => "bsdiff".spec_bytes(),
        Algorithm::Zdict => "zdict".spec_bytes(),
        Algorithm::Block => "block".spec_bytes(),
        Algorithm::Full => "full".spec_bytes(),
    }
}

/// The codec registered under the name bytes `name`, if any.
pub open spec fn algorithm_with_bytes(name: Seq<u8>) -> Option<Algorithm> {
    if name == "bsdiff".spec_bytes() {
        Some(Algorithm::Bsdiff)
    } else if name == "zdict".spec_bytes() {
        Some(Algorithm::Zdict)
    } else if name == "block".spec_bytes() {
        Some(Algorithm::Block)
    } else if name == "full".spec_bytes() {
        Some(Algorithm::Full)
    } else {
        None
    }
}

/// What a codec's payload guarantees about rebuilding `upd` from `base`:
/// the control-stream codecs rebuild it exactly (provided the stream's
/// decoding caps are valid allocation sizes), each payload being the
/// encoding of its codec's greedy parse; `full` and `zdict` payloads are the zstd
/// frames of `upd`, alone or with `base` as the dictionary.
pub open spec fn payload_rebuilds(a: Algorithm, base: Seq<u8>, upd: Seq<u8>, payload: Seq<u8>) -> bool {
    match a {
        Algorithm::Bsdiff => {
            &&& 48 * upd.len() + 192 <= isize::MAX ==> control_payload(base, upd, payload)
            &&& bsdiff_payload(base, upd, payload)
        },
        Algorithm::Block => {
            &&& 48 * upd.len() + 192 <= isize::MAX ==> control_payload(base, upd, payload)
            &&& block_payload(base, upd, payload)
        },
        Algorithm::Full => full_payload(upd, payload),
        Algorithm::Zdict => zdict_payload(base, upd, payload),
    }
}

/// The inputs on which codec `a` always produces a payload: bundles within
/// the 2 GiB limit of the suffix array and the window index for `bsdiff`
/// and `block`, any bundles for `full`, and for `zdict` a base that zstd
/// takes as raw dictionary content.
pub open spec fn create_succeeds(a: Algorithm, base: Seq<u8>, upd: Seq<u8>) -> bool {
    match a {
        Algorithm::Bsdiff => base.len() <= bsdiff::MAX_INPUT && upd.len() <= bsdiff::MAX_INPUT,
        Algorithm::Block => base.len() <= block::MAX_INPUT && upd.len() <= block::MAX_INPUT,
        Algorithm::Full => true,
        Algorithm::Zdict => !zstd_dict_magic(base),
    }
}

/// What a codec's `apply` promises for `payload` and `expected_new_size`.
pub open spec fn codec_apply_result(
    a: Algorithm,
    base: Seq<u8>,
    payload: Seq<u8>,
    expected_new_size: u64,
    res: Result<Vec<u8>>,
) -> bool {
    match a {
        Algorithm::Bsdiff | Algorithm::Block => control_apply_result(
            base,
            payload,
            expected_new_size,
            res,
        ),
        Algorithm::Full => full_apply_result(payload, expected_new_size, res),
        Algorithm::Zdict => zdict_apply_result(base, payload, expected_new_size, res),
    }
}

impl Codec for Algorithm {
    fn name(&self) -> (n: &'static str)
        ensures
            n.spec_bytes() == algorithm_bytes(*self),
    {
        match self {
            Algorithm::Bsdiff => Bsdiff.name(),
            Algorithm::Zdict => Zdict.name(),
            Algorithm::Block => Block.name(),
            Algorithm::Full => Full.name(),
        }
    }

    fn create(&self, base: &[u8], updated: &[u8]) -> (res: Result<Vec<u8>>)
        ensures
            res matches Ok(p) ==> payload_rebuilds(*self, base@, updated@, p@),
            res matches Err(e) ==> e is Codec,
            create_succeeds(*self, base@, updated@) ==> res is Ok,
    {
        match self {
            Algorithm::Bsdiff => Bsdiff.create(base, updated),
            Algorithm::Zdict => Zdict.create(base, updated),
            Algorithm::Block => Block.create(base, updated),
            Algorithm::Full => Full.create(base, updated),
        }
    }

    fn apply(&self, base: &[u8], payload: &[u8], expected_new_size: u64) -> (res: Result<
        Vec<u8>,
    >)
        ensures
            codec_apply_result(*self, base@, payload@, expected_new_size, res),
    {
        match self {
            Algorithm::Bsdiff => Bsdiff.apply(base, payload, expected_new_size),
            Algorithm::Zdict => Zdict.apply(base, payload, expected_new_size),
            Algorithm::Block => Block.apply(base, payload, expected_new_size),
            Algorithm::Full => Full.apply(base, payload, expected_new_size),
        }
    }
}

/// Lists every registered codec name.
pub fn algorithms() -> (names: Vec<&'static str>)
    ensures
        names@.len() == 4,
        names@[0]@ == "bsdiff"@,
        names@[1]@ == "zdict"@,
        names@[2]@ == "block"@,
        names@[3]@ == "full"@,
{
    let mut names: Vec<&'static str> = Vec::new();
    names.push("bsdiff");
    names.push("zdict");
    names.push("block");
    names.push("full");
    names
}

/// Returns the codec registered under `name`.
pub fn codec(name: &str) -> (res: Result<Algorithm>)
    ensures
        match res {
            Ok(a) => algorithm_with_bytes(name.spec_bytes()) == Some(a),
            Err(e) => algorithm_with_bytes(name.spec_bytes()) is None && (e matches Error::UnknownAlgorithm(
                s,
            ) && s@ == name@),
        },
{
    let bytes = name.as_bytes();
    if same_bytes(bytes, "bsdiff".as_bytes()) {
        Ok(Algorithm::Bsdiff)
    } else if same_bytes(bytes, "zdict".as_bytes()) {
        Ok(Algorithm::Zdict)
    } else if same_bytes(bytes, "block".as_bytes()) {
        Ok(Algorithm::Block)
    } else if same_bytes(bytes, "full".as_bytes()) {
        Ok(Algorithm::Full)
    } else {
        Err(Error::UnknownAlgorithm(name.to_owned()))
    }
}

/// Whether `p` is the patch that `create` builds with codec `a` from `base`
/// to `upd`: the envelope around a payload that rebuilds `upd`.
pub open spec fn created(a: Algorithm, base: Seq<u8>, upd: Seq<u8>, p: Seq<u8>) -> bool {
    &&& p == envelope_bytes(algorithm_bytes(a), base, upd, payload_of(p))
    &&& payload_rebuilds(a, base, upd, payload_of(p))
    &&& sha256_of(base).len() == 32
    &&& sha256_of(upd).len() == 32
}

/// Builds a patch that turns `base` into `updated` using the named codec.
/// The returned bytes are the complete envelope and are safe to store or
/// transfer verbatim.
pub fn create(algorithm: &str, base: &[u8], updated: &[u8]) -> (res: Result<Vec<u8>>)
    ensures
        match algorithm_with_bytes(algorithm.spec_bytes()) {
            None => res matches Err(e) && e matches Error::UnknownAlgorithm(s) && s@ == algorithm@,
            Some(a) => {
                &&& res matches Ok(p) ==> created(a, base@, updated@, p@)
                &&& res matches Err(e) ==> e is Codec
                &&& create_succeeds(a, base@, updated@) ==> res is Ok
            },
        },
{
    let codec = codec(algorithm)?;
    let payload = codec.create(base, updated)?;
    let out = encode_created(codec, algorithm, base, updated, &payload);
    Ok(out)
}

/// The envelope around `payload`, with the payload read back from it.
fn encode_created(
    a: Algorithm,
    algorithm: &str,
    base: &[u8],
    updated: &[u8],
    payload: &Vec<u8>,
) -> (out: Vec<u8>)
    requires
        algorithm_with_bytes(algorithm.spec_bytes()) == Some(a),
    ensures
        out@ == envelope_bytes(algorithm_bytes(a), base@, updated@, payload@),
        payload_of(out@) == payload@,
        sha256_of(base@).len() == 32,
        sha256_of(updated@).len() == 32,
{
    let out = envelope::encode(algorithm, base, updated, payload.as_slice());
    let lengths = (base.len(), updated.len(), payload.len());
    proof {
        assert(base@.len() == lengths.0 && updated@.len() == lengths.1 && payload@.len()
            == lengths.2);
        lemma_registered_names(a);
        lemma_parse_encoded(algorithm_bytes(a), base@, updated@, payload@);
    }
    out
}

/// Every registered name is 1 to 64 ASCII bytes, and names the
/// codec it is registered for.
pub proof fn lemma_registered_names(a: Algorithm)
    ensures
        1 <= algorithm_bytes(a).len() <= envelope::MAX_ALGORITHM_NAME,
        envelope::ascii_bytes(algorithm_bytes(a)),
        algorithm_with_bytes(algorithm_bytes(a)) == Some(a),
{
    reveal_strlit("bsdiff");
    reveal_strlit("zdict");
    reveal_strlit("block");
    reveal_strlit("full");
    vstd::string::is_ascii_spec_bytes("bsdiff");
    vstd::string::is_ascii_spec_bytes("zdict");
    vstd::string::is_ascii_spec_bytes("block");
    vstd::string::is_ascii_spec_bytes("full");
    vstd::utf8::encode_utf8_valid_utf8("bsdiff"@);
    vstd::utf8::encode_utf8_valid_utf8("zdict"@);
    vstd::utf8::encode_utf8_valid_utf8("block"@);
    vstd::utf8::encode_utf8_valid_utf8("full"@);
    assert("bsdiff".spec_bytes()[0] == 0x62u8);
    assert("zdict".spec_bytes()[0] == 0x7au8);
    assert("block".spec_bytes()[0] == 0x62u8);
    assert("block".spec_bytes()[1] == 0x6cu8);
    assert("bsdiff".spec_bytes()[1] == 0x73u8);
    assert("full".spec_bytes()[0] == 0x66u8);
}

/// Whether the base-size and base-digest fields of the envelope `p` match
/// `base`.
pub open spec fn base_matches(p: Seq<u8>, base: Seq<u8>) -> bool {
    let f = fields_at(p);
    &&& le_u64(p, f) == base.len()
    &&& sha256_of(base) == p.subrange(f + 8, f + 40)
}

/// Whether the result-size and result-digest fields of the envelope `p`
/// match `v`.
pub open spec fn result_matches(p: Seq<u8>, v: Seq<u8>) -> bool {
    let f = fields_at(p);
    &&& le_u64(p, f + 40) == v.len()
    &&& sha256_of(v) == p.subrange(f + 48, f + 80)
}

/// What codec `a` produced from `payload`: the replay of the decoded
/// control stream, or the content of the `full` or `zdict` frame (an empty
/// payload standing for an empty bundle).
pub open spec fn codec_output(a: Algorithm, base: Seq<u8>, payload: Seq<u8>, expected: u64, v: Seq<u8>) -> bool {
    match a {
        Algorithm::Bsdiff | Algorithm::Block => replayed_from(base, payload, expected, v),
        Algorithm::Full => if payload.len() == 0 {
            v.len() == 0
        } else {
            v == zstd_content(payload)
        },
        Algorithm::Zdict => if payload.len() == 0 {
            v.len() == 0
        } else {
            v == zstd_dict_content(base, payload)
        },
    }
}

/// Whether `v` is what `apply` may return for the patch `p` and `base`: the
/// envelope is valid and names a registered codec, `base` matches its size
/// and digest, `v` matches the result size and digest, and `v` is what the
/// codec produced from the payload.
pub open spec fn applied(p: Seq<u8>, base: Seq<u8>, v: Seq<u8>) -> bool {
    &&& envelope_ok(p)
    &&& algorithm_with_bytes(name_bytes(p)) matches Some(a)
    &&& base_matches(p, base)
    &&& result_matches(p, v)
    &&& codec_output(a, base, payload_of(p), le_u64(p, fields_at(p) + 40), v)
}

/// Whether the patch `p` rebuilds exactly `upd` from `base`: an envelope
/// pinning both bundles around a payload of its codec that rebuilds `upd`
/// (for `zdict`, over a base that zstd takes as raw dictionary content).
pub open spec fn restores(p: Seq<u8>, base: Seq<u8>, upd: Seq<u8>) -> bool {
    &&& algorithm_with_bytes(name_bytes(p)) matches Some(a)
    &&& p == envelope_bytes(name_bytes(p), base, upd, payload_of(p))
    &&& sha256_of(base).len() == 32
    &&& sha256_of(upd).len() == 32
    &&& base.len() <= u64::MAX
    &&& upd.len() <= u64::MAX
    &&& match a {
        Algorithm::Bsdiff | Algorithm::Block => control_payload(base, upd, payload_of(p)),
        Algorithm::Full => full_payload(upd, payload_of(p)) && upd.len() <= isize::MAX,
        Algorithm::Zdict => zdict_payload(base, upd, payload_of(p)) && !zstd_dict_magic(base)
            && upd.len() <= isize::MAX,
    }
}

/// Rebuilds the updated bundle from `base` and `patch`. Both the base hash
/// and the result hash are verified; on any mismatch this returns an error
/// and never returns partially trusted bytes.
pub fn apply(patch: &[u8], base: &[u8]) -> (res: Result<Vec<u8>>)
    ensures
        !envelope_ok(patch@) ==> (res matches Err(e) && e is CorruptPatch),
        envelope_ok(patch@) && algorithm_with_bytes(name_bytes(patch@)) is None ==> (res matches Err(
            e,
        ) && e matches Error::UnknownAlgorithm(s) && vstd::utf8::encode_utf8(s@) == name_bytes(
            patch@,
        )),
        envelope_ok(patch@) && algorithm_with_bytes(name_bytes(patch@)) is Some && !base_matches(
            patch@,
            base@,
        ) ==> res == Err::<Vec<u8>, Error>(
            Error::BaseMismatch {
                have: base@.len() as usize,
                expect: le_u64(patch@, fields_at(patch@)),
            },
        ),
        res matches Ok(v) ==> applied(patch@, base@, v@),
        forall|u: Seq<u8>| #[trigger] restores(patch@, base@, u) ==> (res matches Ok(v) && v@ == u),
{
    let lengths = (patch.len(), base.len());
    proof {
        assert(patch@.len() == lengths.0 && base@.len() == lengths.1);
        assert forall|u: Seq<u8>| #[trigger] restores(patch@, base@, u) implies envelope_ok(patch@)
            && base_matches(patch@, base@) && le_u64(patch@, fields_at(patch@) + 40) == u.len()
            && sha256_of(u) == patch@.subrange(fields_at(patch@) + 48, fields_at(patch@) + 80) by {
            lemma_restores_fields(patch@, base@, u);
        }
    }
    let parsed = envelope::parse(patch)?;
    let codec = codec(parsed.algorithm)?;
    envelope::verify_base(&parsed, base)?;
    let replayed = codec.apply(base, parsed.payload, parsed.result_size);
    proof {
        assert forall|u: Seq<u8>| #[trigger] restores(patch@, base@, u) implies (replayed matches Ok(
            v,
        ) && v@ == u) by {
            assert(algorithm_with_bytes(name_bytes(patch@)) == Some(codec));
            assert(parsed.payload@ == payload_of(patch@));
            if codec == Algorithm::Full {
                assert(full_payload(u, parsed.payload@));
            } else if codec == Algorithm::Zdict {
                assert(zdict_payload(base@, u, parsed.payload@));
            } else {
                assert(control_payload(base@, u, parsed.payload@));
            }
        }
    }
    let updated = replayed?;
    envelope::verify_result(&parsed, &updated)?;
    Ok(updated)
}

/// A patch that restores `upd` holds a registered name, both sizes and
/// digests, and its payload where `parse` finds them.
pub proof fn lemma_restores_fields(p: Seq<u8>, base: Seq<u8>, upd: Seq<u8>)
    requires
        restores(p, base, upd),
        p.len() <= u64::MAX,
    ensures
        envelope_ok(p),
        le_u64(p, fields_at(p)) == base.len(),
        p.subrange(fields_at(p) + 8, fields_at(p) + 40) == sha256_of(base),
        le_u64(p, fields_at(p) + 40) == upd.len(),
        p.subrange(fields_at(p) + 48, fields_at(p) + 80) == sha256_of(upd),
{
    let a = algorithm_with_bytes(name_bytes(p))->Some_0;
    lemma_registered_names(a);
    assert(name_bytes(p) == algorithm_bytes(a));
    lemma_parse_encoded(name_bytes(p), base, upd, payload_of(p));
}

/// A patch that `create` builds restores the updated bundle from the base,
/// so replaying it with `apply` gives the updated bundle back: for every
/// codec, as long as the updated bundle fits the address space (for
/// `bsdiff` and `block`, as long as the decoder's stream caps, `48 * len +
/// 192` bytes, do), and for `zdict` over a base that does not begin with
/// the zstd dictionary magic.
pub proof fn lemma_create_then_apply(a: Algorithm, base: Seq<u8>, upd: Seq<u8>, p: Seq<u8>)
    requires
        created(a, base, upd, p),
        upd.len() <= isize::MAX,
        a == Algorithm::Bsdiff || a == Algorithm::Block ==> 48 * upd.len() + 192 <= isize::MAX,
        a == Algorithm::Zdict ==> !zstd_dict_magic(base),
        base.len() <= u64::MAX,
        p.len() <= u64::MAX,
    ensures
        restores(p, base, upd),
{
    lemma_registered_names(a);
    lemma_parse_encoded(algorithm_bytes(a), base, upd, payload_of(p));
}

/// The payload inside a patch that `create` builds is the payload its
/// codec's own `create` returns for the same bundles.
pub proof fn lemma_created_payload(a: Algorithm, base: Seq<u8>, upd: Seq<u8>, p: Seq<u8>, q: Seq<u8>)
    requires
        created(a, base, upd, p),
        payload_rebuilds(a, base, upd, q),
    ensures
        payload_of(p) == q,
{
    match a {
        Algorithm::Bsdiff => lemma_bsdiff_payload_unique(base, upd, payload_of(p), q),
        Algorithm::Block => lemma_block_payload_unique(base, upd, payload_of(p), q),
        _ => {},
    }
}

/// For every codec, `create` is a function of its inputs: two patches it
/// builds with the same codec from the same bundles are the same bytes.
pub proof fn lemma_create_deterministic(
    a: Algorithm,
    base: Seq<u8>,
    upd: Seq<u8>,
    p1: Seq<u8>,
    p2: Seq<u8>,
)
    requires
        created(a, base, upd, p1),
        created(a, base, upd, p2),
    ensures
        p1 == p2,
{
    if a == Algorithm::Bsdiff {
        lemma_bsdiff_payload_unique(base, upd, payload_of(p1), payload_of(p2));
    }
    if a == Algorithm::Block {
        lemma_block_payload_unique(base, upd, payload_of(p1), payload_of(p2));
    }
}

/// The header of a patch that `create` builds names its codec and pins the
/// size and SHA-256 of both bundles: what `patch_info` reports of it.
pub proof fn lemma_created_header(a: Algorithm, base: Seq<u8>, upd: Seq<u8>, p: Seq<u8>)
    requires
        created(a, base, upd, p),
        base.len() <= u64::MAX,
        upd.len() <= u64::MAX,
        p.len() <= u64::MAX,
    ensures
        envelope_ok(p),
        name_bytes(p) == algorithm_bytes(a),
        le_u64(p, fields_at(p)) == base.len(),
        p.subrange(fields_at(p) + 8, fields_at(p) + 40) == sha256_of(base),
        le_u64(p, fields_at(p) + 40) == upd.len(),
        p.subrange(fields_at(p) + 48, fields_at(p) + 80) == sha256_of(upd),
{
    lemma_registered_names(a);
    lemma_parse_encoded(algorithm_bytes(a), base, upd, payload_of(p));
}

/// Decoded envelope header of a patch: cheap enough for catalog building
/// without keeping codec payloads in memory.
#[derive(Debug, Clone)]
pub struct PatchInfo {
    pub algorithm: String,
    pub base_size: u64,
    pub base_hash: [u8; 32],
    pub result_size: u64,
    pub result_hash: [u8; 32],
    pub payload_len: u64,
}

/// Decodes only the envelope header of a patch.
pub fn patch_info(patch: &[u8]) -> (res: Result<PatchInfo>)
    ensures
        match res {
            Ok(info) => {
                let f = fields_at(patch@);
                &&& envelope_ok(patch@)
                &&& vstd::utf8::encode_utf8(info.algorithm@) == name_bytes(patch@)
                &&& info.base_size == le_u64(patch@, f)
                &&& info.base_hash@ == patch@.subrange(f + 8, f + 40)
                &&& info.result_size == le_u64(patch@, f + 40)
                &&& info.result_hash@ == patch@.subrange(f + 48, f + 80)
                &&& info.payload_len == payload_of(patch@).len()
            },
            Err(e) => !envelope_ok(patch@) && e is CorruptPatch,
        },
{
    let parsed = envelope::parse(patch)?;
    Ok(
        PatchInfo {
            algorithm: parsed.algorithm.to_owned(),
            base_size: parsed.base_size,
            base_hash: parsed.base_hash,
            result_size: parsed.result_size,
            result_hash: parsed.result_hash,
            payload_len: parsed.payload.len() as u64,
        },
    )
}

} // verus!
