//! The calls into the `zstd` crate, each behind a trusted wrapper.
use vstd::prelude::*;

verus! {

#[verifier::external_type_specification]
#[verifier::external_body]
pub struct ExIoError(std::io::Error);

/// The zstd frame that `zstd::bulk::compress` produces for `data` at `level`.
pub uninterp spec fn zstd_frame(data: Seq<u8>, level: i32) -> Seq<u8>;

/// The content that `zstd::bulk::decompress` recovers from `frame`.
pub uninterp spec fn zstd_content(frame: Seq<u8>) -> Seq<u8>;

/// Calls `zstd::bulk::compress`. Trusted: on success the output is the zstd
/// frame of `data` at `level` (single-threaded bulk compression, a function
/// of its two arguments) and, like every zstd frame, starts with the 4-byte
/// frame magic, so it is never empty. At a supported level (1 to 22) it
/// succeeds: it compresses into a buffer of `compress_bound(len)` bytes,
/// which always suffices, so only a failed allocation inside zstd, which
/// this clause leaves out, can make it fail.
#[verifier::external_body]
pub(crate) fn bulk_compress(data: &[u8], level: i32) -> (res: Result<Vec<u8>, std::io::Error>)
    ensures
        res matches Ok(v) ==> v@ == zstd_frame(data@, level) && v@.len() > 0,
        1 <= level <= 22 ==> res is Ok,
{
    zstd::bulk::compress(data, level)
}

/// Calls `zstd::bulk::decompress`. Trusted: on success the output is the
/// frame's content and holds at most `capacity` bytes (the crate
/// decompresses into a buffer of that capacity and fails otherwise); and a
/// frame that `bulk_compress` produced from `x` decompresses to `x` whenever
/// `capacity` admits `x` (zstd is lossless). Other failures are not stated.
/// `capacity` must be a valid `Vec` capacity, which the crate allocates.
#[verifier::external_body]
pub(crate) fn bulk_decompress(data: &[u8], capacity: usize) -> (res: Result<
    Vec<u8>,
    std::io::Error,
>)
    requires
        capacity <= isize::MAX,
    ensures
        res matches Ok(v) ==> v@ == zstd_content(data@) && v@.len() <= capacity,
        res matches Ok(v) ==> forall|x: Seq<u8>, level: i32|
            data@ == #[trigger] zstd_frame(x, level) ==> v@ == x,
        (exists|x: Seq<u8>, level: i32|
            data@ == #[trigger] zstd_frame(x, level) && x.len() <= capacity) ==> res is Ok,
{
    zstd::bulk::decompress(data, capacity)
}

/// The frame that a `zstd::bulk::Compressor` primed with `dictionary` at
/// `level`, its window set to `2^window_log`, produces for `data`.
pub uninterp spec fn zstd_dict_frame(dictionary: Seq<u8>, level: i32, window_log: u32, data: Seq<u8>) -> Seq<u8>;

/// The content that a `zstd::bulk::Decompressor` primed with `dictionary`
/// recovers from `frame`.
pub uninterp spec fn zstd_dict_content(dictionary: Seq<u8>, frame: Seq<u8>) -> Seq<u8>;

/// Whether `dictionary` begins with the magic number of a formatted zstd
/// dictionary (`0xEC30A437`, little endian). zstd parses such bytes as
/// entropy tables instead of taking them as raw content, and refuses them
/// when they do not parse.
pub open spec fn zstd_dict_magic(dictionary: Seq<u8>) -> bool {
    &&& dictionary.len() >= 4
    &&& dictionary[0] == 0x37u8
    &&& dictionary[1] == 0xa4u8
    &&& dictionary[2] == 0x30u8
    &&& dictionary[3] == 0xecu8
}

/// Calls `zstd::bulk::Compressor::with_dictionary`, then `window_log` and
/// `compress` on that compressor. Trusted: on success the output is the
/// frame of `data` for this dictionary, level and window (single-threaded
/// bulk compression, a function of its arguments) and, like every zstd
/// frame, starts with the 4-byte frame magic, so it is never empty. With a
/// raw-content dictionary (no formatted-dictionary magic, which zstd would
/// parse and may refuse), a supported level (1 to 22) and a supported
/// window log (10 to 30), all three calls succeed: loading raw content,
/// setting the parameter and compressing into a `compress_bound` buffer
/// fail only on a failed allocation inside zstd, which this clause leaves
/// out.
#[verifier::external_body]
pub(crate) fn dictionary_compress(
    dictionary: &[u8],
    level: i32,
    window_log: u32,
    data: &[u8],
) -> (res: Result<Vec<u8>, std::io::Error>)
    ensures
        res matches Ok(v) ==> v@ == zstd_dict_frame(dictionary@, level, window_log, data@) && v@.len()
            > 0,
        !zstd_dict_magic(dictionary@) && 1 <= level <= 22 && 10 <= window_log <= 30 ==> res is Ok,
{
    let mut compressor = zstd::bulk::Compressor::with_dictionary(level, dictionary)?;
    compressor.window_log(window_log)?;
    compressor.compress(data)
}

/// Calls `zstd::bulk::Decompressor::with_dictionary`, then `window_log_max`
/// and `decompress` on that decompressor. Trusted: on success the output is
/// the frame's content and holds at most `capacity` bytes (the crate
/// decompresses into a buffer of that capacity and fails otherwise); a
/// frame that `dictionary_compress` produced from `x` with the same
/// dictionary decompresses to `x` (zstd is lossless), and does so whenever
/// its window is at most `2^window_log_max`, `capacity` admits `x` and the
/// dictionary is raw content (no formatted-dictionary magic), which zstd
/// always accepts. Other failures are not stated. `capacity` must be a
/// valid `Vec` capacity, which the crate allocates.
#[verifier::external_body]
pub(crate) fn dictionary_decompress(
    dictionary: &[u8],
    window_log_max: u32,
    data: &[u8],
    capacity: usize,
) -> (res: Result<Vec<u8>, std::io::Error>)
    requires
        capacity <= isize::MAX,
    ensures
        res matches Ok(v) ==> v@ == zstd_dict_content(dictionary@, data@) && v@.len() <= capacity,
        res matches Ok(v) ==> forall|level: i32, w: u32, x: Seq<u8>|
            data@ == #[trigger] zstd_dict_frame(dictionary@, level, w, x) ==> v@ == x,
        (exists|level: i32, w: u32, x: Seq<u8>|
            data@ == #[trigger] zstd_dict_frame(dictionary@, level, w, x) && w <= window_log_max
                && x.len() <= capacity) && !zstd_dict_magic(dictionary@) ==> res is Ok,
{
    let mut decompressor = zstd::bulk::Decompressor::with_dictionary(dictionary)?;
    decompressor.window_log_max(window_log_max)?;
    decompressor.decompress(data, capacity)
}

/// Calls `ToString::to_string` on a zstd error: its message. Nothing is
/// stated of the text.
#[verifier::external_body]
pub(crate) fn io_error_text(e: &std::io::Error) -> String {
    e.to_string()
}

} // verus!
