use vstd::prelude::*;
use vstd::string::StringExecFns;

use crate::compress::io_error_text;

verus! {

/// Every failure mode of patch creation and replay.
#[derive(Debug)]
pub enum Error {
    /// The algorithm name is not compiled into this build.
    UnknownAlgorithm(String),
    /// The patch bytes cannot be parsed or decoded.
    CorruptPatch(String),
    /// The base handed to `apply` does not hash to the base recorded in the
    /// envelope (wrong version, truncation, ...).
    BaseMismatch { have: usize, expect: u64 },
    /// The patched output failed its SHA-256 check.
    ChecksumMismatch,
    /// A codec-internal failure (zstd, allocation, oversized input).
    Codec(String),
    /// Reading or writing a file failed (file-based replay).
    Io(String),
}

/// Status code of a call that succeeded, for C callers.
pub const XPATCHLIB_OK: i32 = 0;
/// Status code of [`Error::UnknownAlgorithm`].
pub const XPATCHLIB_ERR_UNKNOWN_ALGORITHM: i32 = 1;
/// Status code of [`Error::CorruptPatch`].
pub const XPATCHLIB_ERR_CORRUPT_PATCH: i32 = 2;
/// Status code of [`Error::BaseMismatch`].
pub const XPATCHLIB_ERR_BASE_MISMATCH: i32 = 3;
/// Status code of [`Error::ChecksumMismatch`].
pub const XPATCHLIB_ERR_CHECKSUM: i32 = 4;
/// Status code of [`Error::Codec`].
pub const XPATCHLIB_ERR_CODEC: i32 = 5;
/// Status code of an argument the library cannot take (a NULL buffer with a
/// non-zero length).
pub const XPATCHLIB_ERR_INVALID_ARG: i32 = 6;
/// Status code of [`Error::Io`].
pub const XPATCHLIB_ERR_IO: i32 = 7;

/// The status code a C caller receives for `error`.
pub open spec fn status_of(error: Error) -> i32 {
    match error {
        Error::UnknownAlgorithm(_) => XPATCHLIB_ERR_UNKNOWN_ALGORITHM,
        Error::CorruptPatch(_) => XPATCHLIB_ERR_CORRUPT_PATCH,
        Error::BaseMismatch { .. } => XPATCHLIB_ERR_BASE_MISMATCH,
        Error::ChecksumMismatch => XPATCHLIB_ERR_CHECKSUM,
        Error::Codec(_) => XPATCHLIB_ERR_CODEC,
        Error::Io(_) => XPATCHLIB_ERR_IO,
    }
}

/// Maps an error to its status code; every error gets a non-zero code.
pub fn status(error: &Error) -> (code: i32)
    ensures
        code == status_of(*error),
        code != XPATCHLIB_OK,
{
    match error {
        Error::UnknownAlgorithm(_) => XPATCHLIB_ERR_UNKNOWN_ALGORITHM,
        Error::CorruptPatch(_) => XPATCHLIB_ERR_CORRUPT_PATCH,
        Error::BaseMismatch { .. } => XPATCHLIB_ERR_BASE_MISMATCH,
        Error::ChecksumMismatch => XPATCHLIB_ERR_CHECKSUM,
        Error::Codec(_) => XPATCHLIB_ERR_CODEC,
        Error::Io(_) => XPATCHLIB_ERR_IO,
    }
}

/// The library's result type.
pub type Result<T> = core::result::Result<T, Error>;

/// Builds a `CorruptPatch` error carrying `detail`.
pub fn corrupt(detail: &str) -> (e: Error)
    ensures
        e matches Error::CorruptPatch(s) && s@ == detail@,
{
    Error::CorruptPatch(detail.to_owned())
}

/// Builds a `Codec` error carrying `detail`.
pub fn codec_failure(detail: &str) -> (e: Error)
    ensures
        e matches Error::Codec(s) && s@ == detail@,
{
    Error::Codec(detail.to_owned())
}

/// A `Codec` error carrying `prefix` followed by the message of `e`.
pub fn codec_io_failure(prefix: &str, e: &std::io::Error) -> (err: Error)
    ensures
        err is Codec,
{
    Error::Codec(prefix.to_owned().concat(io_error_text(e).as_str()))
}

/// A `CorruptPatch` error carrying `prefix` followed by the message of `e`.
pub fn corrupt_io(prefix: &str, e: &std::io::Error) -> (err: Error)
    ensures
        err matches Error::CorruptPatch(s) && prefix@.len() <= s@.len() && s@.subrange(
            0,
            prefix@.len() as int,
        ) == prefix@,
{
    let text = io_error_text(e);
    let detail = prefix.to_owned().concat(text.as_str());
    assert(detail@.subrange(0, prefix@.len() as int) =~= prefix@);
    Error::CorruptPatch(detail)
}

} // verus!
