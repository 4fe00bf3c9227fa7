//! The full codec ships the new bundle recompressed and is not a delta at
//! all. It exists as the baseline every real codec must beat.
use vstd::prelude::*;

use crate::compress::{bulk_compress, bulk_decompress, zstd_content, zstd_frame};
use crate::error::{codec_io_failure, corrupt, corrupt_io, Error, Result};

verus! {

/// zstd level of the recompressed bundle.
pub const LEVEL: i32 = 9;

/// The full codec.
pub struct Full;

/// Whether `payload` is the full-codec payload of `upd`: its zstd frame.
pub open spec fn full_payload(upd: Seq<u8>, payload: Seq<u8>) -> bool {
    payload == zstd_frame(upd, LEVEL) && payload.len() > 0
}

/// What `Full::apply` promises for `payload` and `expected_new_size`.
pub open spec fn full_apply_result(
    payload: Seq<u8>,
    expected_new_size: u64,
    res: Result<Vec<u8>>,
) -> bool {
    &&& payload.len() == 0 ==> (res is Ok <==> expected_new_size == 0)
    &&& res matches Ok(v) ==> v@.len() <= expected_new_size && (if payload.len() == 0 {
        v@.len() == 0
    } else {
        v@ == zstd_content(payload)
    })
    &&& res matches Err(e) ==> e is CorruptPatch
    &&& payload.len() > 0 && expected_new_size > isize::MAX ==> res is Err
    &&& forall|u: Seq<u8>|
        #[trigger] full_payload(u, payload) && u.len() == expected_new_size && expected_new_size
            <= isize::MAX ==> (res matches Ok(v) && v@ == u)
}

/// How a streaming replay of a `full` payload begins: an empty payload
/// stands for an empty bundle only (`Ok(false)`, nothing to decode);
/// otherwise decoding starts (`Ok(true)`) as long as the expected size fits
/// the address space.
pub fn stream_start(payload_len: usize, expected_new_size: u64) -> (res: Result<bool>)
    ensures
        payload_len == 0 && expected_new_size == 0 ==> (res matches Ok(b) && !b),
        payload_len == 0 && expected_new_size != 0 ==> (res matches Err(e) && e is CorruptPatch),
        payload_len > 0 && expected_new_size <= usize::MAX ==> (res matches Ok(b) && b),
        payload_len > 0 && expected_new_size > usize::MAX ==> (res matches Err(e) && e is CorruptPatch),
{
    if payload_len == 0 {
        return if expected_new_size == 0 {
            Ok(false)
        } else {
            Err(corrupt("empty full payload"))
        };
    }
    if expected_new_size > usize::MAX as u64 {
        return Err(corrupt("expected size exceeds address space"));
    }
    Ok(true)
}

/// Admits one decoded chunk of `n` bytes after `written` bytes of a
/// streaming replay bounded by `expected`: the new total, or
/// `CorruptPatch` when the stream would exceed the bound.
pub fn admit_chunk(written: u64, n: u64, expected: u64) -> (res: Result<u64>)
    requires
        written <= expected,
    ensures
        res matches Ok(w) ==> w == written + n && w <= expected,
        written + n > expected <==> (res matches Err(e) && e is CorruptPatch),
{
    if n > expected - written {
        return Err(corrupt("decompressed stream exceeds bound"));
    }
    Ok(written + n)
}

impl crate::Codec for Full {
    /// Identifier stored in the envelope.
    fn name(&self) -> (n: &'static str)
        ensures
            n@ == "full"@,
    {
        "full"
    }

    /// The new bundle compressed on its own.
    fn create(&self, _base: &[u8], updated: &[u8]) -> (res: Result<Vec<u8>>)
        ensures
            res matches Ok(p) ==> full_payload(updated@, p@),
            res is Ok,
    {
        match bulk_compress(updated, LEVEL) {
            Ok(p) => Ok(p),
            Err(e) => Err(codec_io_failure("full: ", &e)),
        }
    }

    /// Decompresses the new bundle, capped at `expected_new_size` bytes.
    fn apply(&self, _base: &[u8], payload: &[u8], expected_new_size: u64) -> (res: Result<
        Vec<u8>,
    >)
        ensures
            full_apply_result(payload@, expected_new_size, res),
    {
        if payload.len() == 0 {
            return if expected_new_size == 0 {
                Ok(Vec::new())
            } else {
                Err(corrupt("empty full payload"))
            };
        }
        if expected_new_size > isize::MAX as u64 {
            return Err(corrupt("expected size exceeds address space"));
        }
        let cap = expected_new_size as usize;
        match bulk_decompress(payload, cap) {
            Ok(v) => Ok(v),
            Err(e) => Err(corrupt_io("zstd: ", &e)),
        }
    }
}

} // verus!
