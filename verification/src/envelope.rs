//! The versioned patch envelope ("XPDL").
//!
//! Layout (all integers little endian):
//!
//! ```text
//!  0:4   magic "XPDL"
//!  4     format version (1)
//!  5     algorithm name length
//!  6:6+n algorithm name
//!  +8    base size
//!  +32   base SHA-256
//!  +8    result size
//!  +32   result SHA-256
//!  +8    payload length
//!  +p    algorithm payload
//! ```
//!
//! The envelope omits timestamps and other run-varying metadata: for a fixed
//! algorithm the encoding is a function of its inputs.
use vstd::prelude::*;
use vstd::slice::slice_subrange;
use vstd::string::StringSliceAdditionalSpecFns;
use vstd::utf8::{is_leading_byte_width_1, partial_valid_utf8, partial_valid_utf8_extend_ascii_block, valid_utf8};

use crate::bytes::{le_bytes, le_u64, lemma_le_round_trip, push_all, push_u64_le, read_u64_le};
use crate::digest::{same_digest, sha256, sha256_of};
use crate::error::{corrupt, Error, Result};

verus! {

#[verifier::external_type_specification]
#[verifier::external_body]
pub struct ExUtf8Error(core::str::Utf8Error);

/// `core::str::from_utf8`, as its documentation states it: it succeeds
/// exactly on valid UTF-8 and then views the same bytes as a string.
pub assume_specification<'a>[ core::str::from_utf8 ](v: &'a [u8]) -> (res: core::result::Result<
    &'a str,
    core::str::Utf8Error,
>)
    ensures
        res is Ok <==> valid_utf8(v@),
        res matches Ok(s) ==> s.spec_bytes() == v@,
;

/// Current envelope format version.
pub const VERSION: u8 = 1;

/// Longest algorithm name an envelope may carry.
pub const MAX_ALGORITHM_NAME: usize = 64;

/// Size of every fixed-width field after the name: three sizes and two digests.
pub const FIXED_FIELDS: usize = 88;

/// The envelope magic "XPDL".
pub open spec fn magic() -> Seq<u8> {
    seq![0x58u8, 0x50u8, 0x44u8, 0x4cu8]
}

/// Offset of the base-size field of `p` (just after the name).
pub open spec fn fields_at(p: Seq<u8>) -> int {
    6 + p[5]
}

/// Offset of the payload of `p`.
pub open spec fn payload_at(p: Seq<u8>) -> int {
    fields_at(p) + 88
}

/// Whether every byte of `s` is ASCII (below `0x80`).
pub open spec fn ascii_bytes(s: Seq<u8>) -> bool {
    forall|i: int| 0 <= i < s.len() ==> #[trigger] s[i] < 0x80
}

/// ASCII bytes are valid UTF-8.
pub proof fn lemma_ascii_valid_utf8(s: Seq<u8>)
    requires
        ascii_bytes(s),
    ensures
        valid_utf8(s),
{
    assert(s.subrange(0, 0) =~= Seq::<u8>::empty());
    assert(partial_valid_utf8(s, 0));
    assert forall|i: int| 0 <= 0 <= i < s.len() <= s.len() implies #[trigger] is_leading_byte_width_1(
        s[i],
    ) by {
        assert(s[i] < 0x80);
    }
    partial_valid_utf8_extend_ascii_block(s, 0, s.len() as int);
    assert(s.subrange(0, s.len() as int) =~= s);
}

/// Whether `p` is a well-formed envelope: magic, version, a name of 1 to 64
/// ASCII bytes, all fixed fields present, and a payload length field that
/// matches the bytes that follow.
pub open spec fn envelope_ok(p: Seq<u8>) -> bool {
    &&& p.len() >= 6
    &&& p.subrange(0, 4) == magic()
    &&& p[4] == VERSION
    &&& 1 <= p[5] <= MAX_ALGORITHM_NAME
    &&& p.len() >= payload_at(p)
    &&& ascii_bytes(p.subrange(6, fields_at(p)))
    &&& le_u64(p, fields_at(p) + 80) == p.len() - payload_at(p)
}

/// The bytes of a complete envelope.
pub open spec fn envelope_bytes(
    name: Seq<u8>,
    base: Seq<u8>,
    updated: Seq<u8>,
    payload: Seq<u8>,
) -> Seq<u8> {
    magic() + seq![VERSION, name.len() as u8] + name + le_bytes(base.len() as u64) + sha256_of(
        base,
    ) + le_bytes(updated.len() as u64) + sha256_of(updated) + le_bytes(payload.len() as u64)
        + payload
}

/// The algorithm name bytes of the envelope `p`.
pub open spec fn name_bytes(p: Seq<u8>) -> Seq<u8> {
    p.subrange(6, fields_at(p))
}

/// The payload of the envelope `p`.
pub open spec fn payload_of(p: Seq<u8>) -> Seq<u8> {
    p.subrange(payload_at(p), p.len() as int)
}

/// Decoded envelope of a patch. Borrowed fields point into the patch bytes.
pub struct Envelope<'a> {
    pub algorithm: &'a str,
    pub base_size: u64,
    pub base_hash: [u8; 32],
    pub result_size: u64,
    pub result_hash: [u8; 32],
    pub payload: &'a [u8],
}

impl<'a> Envelope<'a> {
    /// Whether this is the decoding of the well-formed envelope `p`.
    pub open spec fn decodes(&self, p: Seq<u8>) -> bool {
        let f = fields_at(p);
        &&& envelope_ok(p)
        &&& self.algorithm.spec_bytes() == p.subrange(6, f)
        &&& self.base_size == le_u64(p, f)
        &&& self.base_hash@ == p.subrange(f + 8, f + 40)
        &&& self.result_size == le_u64(p, f + 40)
        &&& self.result_hash@ == p.subrange(f + 48, f + 80)
        &&& self.payload@ == p.subrange(payload_at(p), p.len() as int)
    }
}

/// Copies the 32 bytes at `s[off..off + 32]` into an array.
fn read_digest(s: &[u8], off: usize) -> (h: [u8; 32])
    requires
        off + 32 <= s@.len(),
    ensures
        h@ == s@.subrange(off as int, off + 32),
{
    let mut h = [0u8;32];
    let mut k: usize = 0;
    while k < 32
        invariant
            off + 32 <= s.len(),
            off + 32 <= s@.len(),
            h@.len() == 32,
            forall|j: int| 0 <= j < k ==> h@[j] == s@[off + j],
        decreases 32 - k,
    {
        h[k] = s[off + k];
        k = k + 1;
    }
    assert(h@ =~= s@.subrange(off as int, off + 32));
    h
}

/// Builds the envelope around `payload`, pinning the size and SHA-256 of
/// both `base` and `updated`. The name length is written as one byte.
pub fn encode(algorithm: &str, base: &[u8], updated: &[u8], payload: &[u8]) -> (out: Vec<u8>)
    ensures
        out@ == envelope_bytes(algorithm.spec_bytes(), base@, updated@, payload@),
        sha256_of(base@).len() == 32,
        sha256_of(updated@).len() == 32,
{
    let base_hash = sha256(base);
    let result_hash = sha256(updated);
    let mut out: Vec<u8> = Vec::new();
    out.push(0x58u8);
    out.push(0x50u8);
    out.push(0x44u8);
    out.push(0x4cu8);
    out.push(VERSION);
    let name = algorithm.as_bytes();
    out.push(name.len() as u8);
    push_all(&mut out, name);
    push_u64_le(&mut out, base.len() as u64);
    push_all(&mut out, base_hash.as_slice());
    push_u64_le(&mut out, updated.len() as u64);
    push_all(&mut out, result_hash.as_slice());
    push_u64_le(&mut out, payload.len() as u64);
    push_all(&mut out, payload);
    assert(out@ =~= envelope_bytes(algorithm.spec_bytes(), base@, updated@, payload@));
    out
}

/// Decodes an envelope; every malformation is a `CorruptPatch` error.
pub fn parse<'a>(patch: &'a [u8]) -> (res: Result<Envelope<'a>>)
    ensures
        match res {
            Ok(e) => e.decodes(patch@),
            Err(err) => !envelope_ok(patch@) && err is CorruptPatch,
        },
{
    if patch.len() < 6 {
        return Err(corrupt("patch too short"));
    }
    if !(patch[0] == 0x58u8 && patch[1] == 0x50u8 && patch[2] == 0x44u8 && patch[3] == 0x4cu8) {
        assert(patch@.subrange(0, 4)[0] == patch@[0]);
        assert(patch@.subrange(0, 4)[1] == patch@[1]);
        assert(patch@.subrange(0, 4)[2] == patch@[2]);
        assert(patch@.subrange(0, 4)[3] == patch@[3]);
        return Err(corrupt("bad magic"));
    }
    assert(patch@.subrange(0, 4) =~= magic());
    if patch[4] != VERSION {
        return Err(corrupt("unsupported version"));
    }
    let name_len = patch[5] as usize;
    if name_len == 0 || name_len > MAX_ALGORITHM_NAME {
        return Err(corrupt("bad algorithm name length"));
    }
    let offset: usize = 6;
    if patch.len() < offset + name_len + FIXED_FIELDS {
        return Err(corrupt("truncated header"));
    }
    let mut k: usize = 0;
    while k < name_len
        invariant
            k <= name_len,
            offset == 6,
            1 <= name_len <= MAX_ALGORITHM_NAME,
            name_len == patch@[5],
            offset + name_len <= patch@.len(),
            forall|j: int| 0 <= j < k ==> #[trigger] patch@[offset + j] < 0x80,
        decreases name_len - k,
    {
        if patch[offset + k] >= 0x80 {
            assert(patch@.subrange(6, 6 + name_len as int)[k as int] == patch@[offset + k]);
            assert(!ascii_bytes(patch@.subrange(6, fields_at(patch@))));
            return Err(corrupt("algorithm name is not ASCII"));
        }
        k = k + 1;
    }
    let name = slice_subrange(patch, offset, offset + name_len);
    proof {
        assert forall|j: int| 0 <= j < name@.len() implies #[trigger] name@[j] < 0x80 by {
            assert(name@[j] == patch@[offset + j]);
        }
        lemma_ascii_valid_utf8(name@);
    }
    let algorithm = match core::str::from_utf8(name) {
        Ok(name) => name,
        Err(_) => {
            return Err(corrupt("algorithm name is not ASCII"));
        },
    };
    let f = offset + name_len;
    let base_size = read_u64_le(patch, f);
    let base_hash = read_digest(patch, f + 8);
    let result_size = read_u64_le(patch, f + 40);
    let result_hash = read_digest(patch, f + 48);
    let payload_len = read_u64_le(patch, f + 80);
    let start = f + FIXED_FIELDS;
    if payload_len != (patch.len() - start) as u64 {
        return Err(corrupt("payload length mismatch"));
    }
    Ok(
        Envelope {
            algorithm,
            base_size,
            base_hash,
            result_size,
            result_hash,
            payload: slice_subrange(patch, start, patch.len()),
        },
    )
}

/// Verifies that `base` has the size and SHA-256 the envelope pins.
pub fn verify_base(envelope: &Envelope, base: &[u8]) -> (res: Result<()>)
    ensures
        res is Ok <==> (base@.len() == envelope.base_size && sha256_of(base@)
            == envelope.base_hash@),
        res matches Err(e) ==> e == (Error::BaseMismatch {
            have: base@.len() as usize,
            expect: envelope.base_size,
        }),
{
    if envelope.base_size != base.len() as u64 {
        return Err(Error::BaseMismatch { have: base.len(), expect: envelope.base_size });
    }
    let hash = sha256(base);
    if !same_digest(&hash, &envelope.base_hash) {
        return Err(Error::BaseMismatch { have: base.len(), expect: envelope.base_size });
    }
    Ok(())
}

/// Verifies the replay output against the size and SHA-256 the envelope pins.
pub fn verify_result(envelope: &Envelope, updated: &[u8]) -> (res: Result<()>)
    ensures
        res is Ok <==> (updated@.len() == envelope.result_size && sha256_of(updated@)
            == envelope.result_hash@),
        res matches Err(e) ==> e is ChecksumMismatch,
{
    if updated.len() as u64 != envelope.result_size {
        return Err(Error::ChecksumMismatch);
    }
    let hash = sha256(updated);
    if !same_digest(&hash, &envelope.result_hash) {
        return Err(Error::ChecksumMismatch);
    }
    Ok(())
}

/// Checks a base that was hashed as it streamed past: `size` bytes with
/// SHA-256 `hash` must be the size and digest the envelope pins.
pub fn verify_base_digest(envelope: &Envelope, size: u64, hash: &[u8; 32]) -> (res: Result<()>)
    ensures
        res is Ok <==> (size == envelope.base_size && hash@ == envelope.base_hash@),
        res matches Err(e) ==> e == (if size != envelope.base_size {
            Error::BaseMismatch { have: size as usize, expect: envelope.base_size }
        } else {
            Error::BaseMismatch { have: envelope.base_size as usize, expect: envelope.base_size }
        }),
{
    if size != envelope.base_size {
        return Err(Error::BaseMismatch { have: size as usize, expect: envelope.base_size });
    }
    if !same_digest(hash, &envelope.base_hash) {
        return Err(
            Error::BaseMismatch { have: envelope.base_size as usize, expect: envelope.base_size },
        );
    }
    Ok(())
}

/// Checks an output that was hashed as it streamed past: `written` bytes
/// with SHA-256 `hash` must be the size and digest the envelope pins.
pub fn verify_streamed(envelope: &Envelope, written: u64, hash: &[u8; 32]) -> (res: Result<()>)
    ensures
        res is Ok <==> (written == envelope.result_size && hash@ == envelope.result_hash@),
        res matches Err(e) ==> e is ChecksumMismatch,
{
    if written != envelope.result_size {
        return Err(Error::ChecksumMismatch);
    }
    if !same_digest(hash, &envelope.result_hash) {
        return Err(Error::ChecksumMismatch);
    }
    Ok(())
}

/// Parsing the encoding of a name, two bundles and a payload gives them
/// back: the name, both sizes and digests, and the payload, whenever the
/// name is 1 to 64 ASCII bytes.
pub proof fn lemma_parse_encoded(
    name: Seq<u8>,
    base: Seq<u8>,
    updated: Seq<u8>,
    payload: Seq<u8>,
)
    requires
        1 <= name.len() <= MAX_ALGORITHM_NAME,
        ascii_bytes(name),
        base.len() <= u64::MAX,
        updated.len() <= u64::MAX,
        payload.len() <= u64::MAX,
        sha256_of(base).len() == 32,
        sha256_of(updated).len() == 32,
    ensures
        ({
            let p = envelope_bytes(name, base, updated, payload);
            let f = fields_at(p);
            &&& envelope_ok(p)
            &&& f == 6 + name.len()
            &&& p.subrange(6, f) == name
            &&& le_u64(p, f) == base.len()
            &&& p.subrange(f + 8, f + 40) == sha256_of(base)
            &&& le_u64(p, f + 40) == updated.len()
            &&& p.subrange(f + 48, f + 80) == sha256_of(updated)
            &&& p.subrange(payload_at(p), p.len() as int) == payload
        }),
{
    let p = envelope_bytes(name, base, updated, payload);
    let n = name.len() as int;
    let f = 6 + n;
    assert(p[5] == name.len() as u8);
    assert(fields_at(p) == f);
    assert(p.subrange(0, 4) =~= magic());
    assert(p.subrange(6, f) =~= name);
    assert(p.subrange(f, f + 8) =~= le_bytes(base.len() as u64));
    lemma_le_round_trip(base.len() as u64, p, f);
    assert(p.subrange(f + 8, f + 40) =~= sha256_of(base));
    assert(p.subrange(f + 40, f + 48) =~= le_bytes(updated.len() as u64));
    lemma_le_round_trip(updated.len() as u64, p, f + 40);
    assert(p.subrange(f + 48, f + 80) =~= sha256_of(updated));
    assert(p.subrange(f + 80, f + 88) =~= le_bytes(payload.len() as u64));
    lemma_le_round_trip(payload.len() as u64, p, f + 80);
    assert(p.subrange(payload_at(p), p.len() as int) =~= payload);
}

} // verus!
