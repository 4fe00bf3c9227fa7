//! The zdict codec treats the base bundle as a zstd dictionary: the patch is
//! simply the new bundle compressed with the old one priming the encoder
//! ("patch-from" style). Replay builds carry only the decompressor path.
use vstd::prelude::*;

use crate::compress::{
    dictionary_compress, dictionary_decompress, zstd_dict_content, zstd_dict_frame, zstd_dict_magic,
};
use crate::error::{codec_io_failure, corrupt, Result};

verus! {

/// Back-reference distance cap: zstd cannot reference base content farther
/// back than this from the current output position.
pub const MAX_WINDOW_LOG: u32 = 27;

/// Smallest window the producer asks for.
pub const MIN_WINDOW_LOG: u32 = 17;

/// zstd level of the patch.
pub const LEVEL: i32 = 9;

/// The zdict codec.
pub struct Zdict;

/// `2^log` for the window logs the producer picks from.
pub open spec fn window_size(log: u32) -> int {
    if log == 17 {
        0x2_0000
    } else if log == 18 {
        0x4_0000
    } else if log == 19 {
        0x8_0000
    } else if log == 20 {
        0x10_0000
    } else if log == 21 {
        0x20_0000
    } else if log == 22 {
        0x40_0000
    } else if log == 23 {
        0x80_0000
    } else if log == 24 {
        0x100_0000
    } else if log == 25 {
        0x200_0000
    } else if log == 26 {
        0x400_0000
    } else {
        0x800_0000
    }
}

/// The window log the producer picks for `span` bytes of base plus new
/// bundle: the smallest power of two from `2^17` up that covers the span,
/// and `27` where none up to `2^26` does.
pub open spec fn window_log_spec(span: int) -> u32 {
    if span <= 0x2_0000 {
        17
    } else if span <= 0x4_0000 {
        18
    } else if span <= 0x8_0000 {
        19
    } else if span <= 0x10_0000 {
        20
    } else if span <= 0x20_0000 {
        21
    } else if span <= 0x40_0000 {
        22
    } else if span <= 0x80_0000 {
        23
    } else if span <= 0x100_0000 {
        24
    } else if span <= 0x200_0000 {
        25
    } else if span <= 0x400_0000 {
        26
    } else {
        27
    }
}

/// `1 << log` is `window_size(log)` for every window log the producer
/// considers.
proof fn lemma_window_shift(log: u32)
    by (bit_vector)
    requires
        17 <= log <= 27,
    ensures
        (1usize << log) == if log == 17 {
            0x2_0000usize
        } else if log == 18 {
            0x4_0000usize
        } else if log == 19 {
            0x8_0000usize
        } else if log == 20 {
            0x10_0000usize
        } else if log == 21 {
            0x20_0000usize
        } else if log == 22 {
            0x40_0000usize
        } else if log == 23 {
            0x80_0000usize
        } else if log == 24 {
            0x100_0000usize
        } else if log == 25 {
            0x200_0000usize
        } else if log == 26 {
            0x400_0000usize
        } else {
            0x800_0000usize
        },
{
}

/// Picks the smallest power of two that covers base plus the new bundle,
/// clamped to the zstd window limits.
pub fn window_log_for(span: usize) -> (log: u32)
    ensures
        log == window_log_spec(span as int),
        MIN_WINDOW_LOG <= log <= MAX_WINDOW_LOG,
{
    let mut log: u32 = MIN_WINDOW_LOG;
    proof {
        lemma_window_shift(log);
    }
    while (1usize << log) < span && log < MAX_WINDOW_LOG
        invariant
            MIN_WINDOW_LOG <= log <= MAX_WINDOW_LOG,
            (1usize << log) == window_size(log),
            log > MIN_WINDOW_LOG ==> window_size((log - 1) as u32) < span,
        decreases MAX_WINDOW_LOG - log,
    {
        log = log + 1;
        proof {
            lemma_window_shift(log);
        }
    }
    if log < MAX_WINDOW_LOG {
        log
    } else {
        MAX_WINDOW_LOG
    }
}

/// The span the producer sizes the window for: both bundles together,
/// saturating at the largest `usize`.
pub open spec fn span_of(base_len: int, updated_len: int) -> int {
    if base_len + updated_len <= usize::MAX {
        base_len + updated_len
    } else {
        usize::MAX as int
    }
}

/// Whether `payload` is the zdict payload of `upd` over `base`: `upd`
/// compressed with `base` as the dictionary, at `LEVEL`, with the window
/// `window_log_spec` picks for both bundles.
pub open spec fn zdict_payload(base: Seq<u8>, upd: Seq<u8>, payload: Seq<u8>) -> bool {
    &&& payload == zstd_dict_frame(
        base,
        LEVEL,
        window_log_spec(span_of(base.len() as int, upd.len() as int)),
        upd,
    )
    &&& payload.len() > 0
}

/// What `Zdict::apply` promises for `payload` and `expected_new_size`: an
/// empty payload stands for an empty bundle only; any output is the
/// dictionary decompression of the payload within the expected size; and a
/// zdict payload of an expected-size bundle over a raw-content base gives
/// that bundle back.
pub open spec fn zdict_apply_result(
    base: Seq<u8>,
    payload: Seq<u8>,
    expected_new_size: u64,
    res: Result<Vec<u8>>,
) -> bool {
    &&& payload.len() == 0 ==> (res is Ok <==> expected_new_size == 0)
    &&& res matches Ok(v) ==> v@.len() <= expected_new_size && (if payload.len() == 0 {
        v@.len() == 0
    } else {
        v@ == zstd_dict_content(base, payload)
    })
    &&& res matches Err(e) ==> (e is CorruptPatch || e is Codec)
    &&& payload.len() > 0 && expected_new_size > isize::MAX ==> res is Err
    &&& forall|u: Seq<u8>|
        #[trigger] zdict_payload(base, u, payload) && !zstd_dict_magic(base) && u.len()
            == expected_new_size && expected_new_size <= isize::MAX ==> (res matches Ok(v) && v@
            == u)
}

impl crate::Codec for Zdict {
    /// Identifier stored in the envelope.
    fn name(&self) -> (n: &'static str)
        ensures
            n@ == "zdict"@,
    {
        "zdict"
    }

    /// The new bundle compressed with `base` as the dictionary and a window
    /// that covers both.
    fn create(&self, base: &[u8], updated: &[u8]) -> (res: Result<Vec<u8>>)
        ensures
            res matches Ok(p) ==> zdict_payload(base@, updated@, p@),
            res matches Err(e) ==> e is Codec,
            !zstd_dict_magic(base@) ==> res is Ok,
    {
        let span = match base.len().checked_add(updated.len()) {
            Some(s) => s,
            None => usize::MAX,
        };
        match dictionary_compress(base, LEVEL, window_log_for(span), updated) {
            Ok(p) => Ok(p),
            Err(e) => Err(codec_io_failure("zdict: ", &e)),
        }
    }

    /// Decompresses the new bundle with `base` as the dictionary, capped at
    /// `expected_new_size` bytes.
    fn apply(&self, base: &[u8], payload: &[u8], expected_new_size: u64) -> (res: Result<
        Vec<u8>,
    >)
        ensures
            zdict_apply_result(base@, payload@, expected_new_size, res),
    {
        if payload.len() == 0 {
            return if expected_new_size == 0 {
                Ok(Vec::new())
            } else {
                Err(corrupt("empty zdict payload"))
            };
        }
        if expected_new_size > isize::MAX as u64 {
            return Err(corrupt("expected size exceeds address space"));
        }
        let cap = expected_new_size as usize;
        let res = match dictionary_decompress(base, MAX_WINDOW_LOG, payload, cap) {
            Ok(v) => Ok(v),
            Err(e) => Err(codec_io_failure("zstd: ", &e)),
        };
        assert forall|u: Seq<u8>|
            #[trigger] zdict_payload(base@, u, payload@) && !zstd_dict_magic(base@) && u.len()
                == expected_new_size implies (res matches Ok(v) && v@ == u) by {
            let w = window_log_spec(span_of(base@.len() as int, u.len() as int));
            assert(payload@ == zstd_dict_frame(base@, LEVEL, w, u) && w <= MAX_WINDOW_LOG);
        }
        res
    }
}

} // verus!
