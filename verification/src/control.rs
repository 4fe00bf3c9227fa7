//! The control stream is the shared payload format of the bsdiff and block
//! codecs: the classic bsdiff triple (add, copy, seek) followed by per-byte
//! deltas and verbatim bytes, each in its own zstd stream.
//!
//! Patch semantics match bspatch: for every tuple, `add` bytes are read from
//! the diff stream and added modulo 256 to `base[base_pos..]`, then `copy`
//! bytes are taken verbatim from the extra stream, then `base_pos` advances
//! by `seek` (which may be negative). A tuple's seek therefore positions the
//! tuple that follows it.
use vstd::prelude::*;
use vstd::slice::slice_subrange;

use crate::bytes::{le_bytes, le_u64, lemma_le_round_trip, push_all, push_u64_le, read_u64_le};
use crate::compress::{bulk_compress, bulk_decompress, zstd_content, zstd_frame};
use crate::error::{codec_io_failure, corrupt, corrupt_io, Result};

verus! {

/// One bsdiff control triple.
#[derive(Clone, Copy, Debug)]
pub struct ControlTuple {
    pub add: i64,
    pub copy: i64,
    pub seek: i64,
}

/// `a + b` modulo 256.
pub open spec fn byte_add(a: u8, b: u8) -> u8 {
    ((a + b) % 256) as u8
}

/// `a - b` modulo 256.
pub open spec fn byte_sub(a: u8, b: u8) -> u8 {
    ((a - b) % 256) as u8
}

/// The `n` bytes `base[bpos + j] + diff[dpos + j]` (mod 256).
pub open spec fn added(base: Seq<u8>, diff: Seq<u8>, bpos: int, dpos: int, n: int) -> Seq<u8> {
    Seq::new(n as nat, |j: int| byte_add(base[bpos + j], diff[dpos + j]))
}

/// Replay state: (diff position, extra position, base position, output so far).
pub type ReplayState = (int, int, int, Seq<u8>);

/// Whether tuple `t` may run from state `s`: nonnegative lengths, both
/// streams long enough, the base range in bounds whenever bytes are added,
/// and the output staying within `expected` bytes.
pub open spec fn step_ok(
    base: Seq<u8>,
    diff: Seq<u8>,
    extra: Seq<u8>,
    expected: int,
    s: ReplayState,
    t: ControlTuple,
) -> bool {
    &&& t.add >= 0
    &&& t.copy >= 0
    &&& s.0 + t.add <= diff.len()
    &&& s.1 + t.copy <= extra.len()
    &&& t.add > 0 ==> (s.2 >= 0 && s.2 + t.add <= base.len())
    &&& s.3.len() + t.add + t.copy <= expected
}

/// The state after tuple `t` runs from state `s`.
pub open spec fn step(
    base: Seq<u8>,
    diff: Seq<u8>,
    extra: Seq<u8>,
    s: ReplayState,
    t: ControlTuple,
) -> ReplayState {
    (
        s.0 + t.add,
        s.1 + t.copy,
        s.2 + t.seek,
        s.3 + added(base, diff, s.2, s.0, t.add as int) + extra.subrange(s.1, s.1 + t.copy),
    )
}

/// Runs `tuples` in order from the initial state, or `None` at the first
/// tuple that may not run.
pub open spec fn run(
    base: Seq<u8>,
    tuples: Seq<ControlTuple>,
    diff: Seq<u8>,
    extra: Seq<u8>,
    expected: int,
) -> Option<ReplayState>
    decreases tuples.len(),
{
    if tuples.len() == 0 {
        Some((0, 0, 0, Seq::<u8>::empty()))
    } else {
        match run(base, tuples.drop_last(), diff, extra, expected) {
            Some(s) => if step_ok(base, diff, extra, expected, s, tuples.last()) {
                Some(step(base, diff, extra, s, tuples.last()))
            } else {
                None
            },
            None => None,
        }
    }
}

/// The bundle that replaying `tuples` over `base` rebuilds, when every tuple
/// may run and the output has exactly `expected` bytes (which must fit the
/// address space).
pub open spec fn replay(
    base: Seq<u8>,
    tuples: Seq<ControlTuple>,
    diff: Seq<u8>,
    extra: Seq<u8>,
    expected: int,
) -> Option<Seq<u8>> {
    if expected > usize::MAX {
        None
    } else {
        match run(base, tuples, diff, extra, expected) {
            Some(s) => if s.3.len() == expected {
                Some(s.3)
            } else {
                None
            },
            None => None,
        }
    }
}

/// Replays the tuples against `base`, enforcing every bound so a malicious
/// patch can neither read out of range nor exceed the expected output size.
pub fn apply_control_stream(
    base: &[u8],
    tuples: &[ControlTuple],
    diff: &[u8],
    extra: &[u8],
    expected_new_size: u64,
) -> (res: Result<Vec<u8>>)
    ensures
        match res {
            Ok(out) => replay(base@, tuples@, diff@, extra@, expected_new_size as int) == Some(
                out@,
            ),
            Err(e) => replay(base@, tuples@, diff@, extra@, expected_new_size as int) is None
                && e is CorruptPatch,
        },
{
    if expected_new_size > usize::MAX as u64 {
        return Err(corrupt("expected size exceeds address space"));
    }
    let expected = expected_new_size as usize;
    let ghost exp = expected as int;
    let mut out: Vec<u8> = Vec::new();
    let mut diff_pos: usize = 0;
    let mut extra_pos: usize = 0;
    let mut base_pos: i128 = 0;
    let mut i: usize = 0;
    while i < tuples.len()
        invariant
            i <= tuples@.len(),
            exp == expected_new_size,
            exp == expected,
            -(i as int) * 0x8000_0000_0000_0000 <= base_pos <= (i as int) * 0x8000_0000_0000_0000,
            run(base@, tuples@.subrange(0, i as int), diff@, extra@, exp) == Some(
                (diff_pos as int, extra_pos as int, base_pos as int, out@),
            ),
        decreases tuples@.len() - i,
    {
        let ghost before = (diff_pos as int, extra_pos as int, base_pos as int, out@);
        let t = tuples[i];
        assert(tuples@.subrange(0, i + 1).drop_last() == tuples@.subrange(0, i as int));
        assert(tuples@.subrange(0, i + 1).last() == t);
        proof {
            lemma_run_prefix_bounds(base@, tuples@.subrange(0, i as int), diff@, extra@, exp);
        }
        if t.add < 0 || t.copy < 0 {
            proof {
                lemma_run_fails_after(base@, tuples@, diff@, extra@, exp, i as int + 1);
            }
            return Err(corrupt("negative tuple"));
        }
        if (diff_pos as i128) + (t.add as i128) > diff.len() as i128 || (extra_pos as i128) + (
        t.copy as i128) > extra.len() as i128 {
            proof {
                lemma_run_fails_after(base@, tuples@, diff@, extra@, exp, i as int + 1);
            }
            return Err(corrupt("stream overrun"));
        }
        if t.add > 0 && (base_pos < 0 || base_pos + (t.add as i128) > base.len() as i128) {
            proof {
                lemma_run_fails_after(base@, tuples@, diff@, extra@, exp, i as int + 1);
            }
            return Err(corrupt("base overrun"));
        }
        let add = t.add as usize;
        let copy = t.copy as usize;
        assert(add as int == t.add && copy as int == t.copy);
        if out.len() as i128 + add as i128 + copy as i128 > expected as i128 {
            proof {
                lemma_run_fails_after(base@, tuples@, diff@, extra@, exp, i as int + 1);
            }
            return Err(corrupt("output exceeds expected size"));
        }
        assert(step_ok(base@, diff@, extra@, exp, before, t));
        let ghost out0 = out@;
        let mut j: usize = 0;
        while j < add
            invariant
                j <= add,
                add == t.add,
                diff_pos + add <= diff.len(),
                add > 0 ==> (base_pos >= 0 && base_pos + add <= base.len()),
                out@ == out0 + added(base@, diff@, base_pos as int, diff_pos as int, j as int),
            decreases add - j,
        {
            let b = base[(base_pos + j as i128) as usize];
            out.push(b.wrapping_add(diff[diff_pos + j]));
            j = j + 1;
            assert(out@ =~= out0 + added(base@, diff@, base_pos as int, diff_pos as int, j as int));
        }
        push_all(&mut out, slice_subrange(extra, extra_pos, extra_pos + copy));
        diff_pos = diff_pos + add;
        extra_pos = extra_pos + copy;
        base_pos = base_pos + t.seek as i128;
        i = i + 1;
        assert(out@ =~= before.3 + added(base@, diff@, before.2, before.0, t.add as int)
            + extra@.subrange(before.1, before.1 + t.copy));
    }
    assert(tuples@.subrange(0, i as int) == tuples@);
    if out.len() != expected {
        return Err(corrupt("output size differs from the expected size"));
    }
    Ok(out)
}

/// A successful run keeps both stream positions within their streams and
/// the output within `expected`.
pub proof fn lemma_run_prefix_bounds(
    base: Seq<u8>,
    tuples: Seq<ControlTuple>,
    diff: Seq<u8>,
    extra: Seq<u8>,
    expected: int,
)
    requires
        expected >= 0,
    ensures
        run(base, tuples, diff, extra, expected) matches Some(s) ==> 0 <= s.0 <= diff.len() && 0
            <= s.1 <= extra.len() && s.3.len() <= expected,
    decreases tuples.len(),
{
    if tuples.len() > 0 {
        lemma_run_prefix_bounds(base, tuples.drop_last(), diff, extra, expected);
    }
}

/// Once the run over the first `k` tuples fails, every longer run fails.
pub proof fn lemma_run_fails_after(
    base: Seq<u8>,
    tuples: Seq<ControlTuple>,
    diff: Seq<u8>,
    extra: Seq<u8>,
    expected: int,
    k: int,
)
    requires
        0 <= k <= tuples.len(),
        run(base, tuples.subrange(0, k), diff, extra, expected) is None,
    ensures
        run(base, tuples, diff, extra, expected) is None,
    decreases tuples.len() - k,
{
    if k < tuples.len() {
        assert(tuples.subrange(0, k + 1).drop_last() == tuples.subrange(0, k));
        lemma_run_fails_after(base, tuples, diff, extra, expected, k + 1);
    } else {
        assert(tuples.subrange(0, k) == tuples);
    }
}

/// Control stream magic ("XPBS").
pub open spec fn stream_magic() -> Seq<u8> {
    seq![0x58u8, 0x50u8, 0x42u8, 0x53u8]
}

/// Control stream format version.
pub const STREAM_VERSION: u8 = 1;

/// Bytes per encoded control tuple.
pub const TUPLE_SIZE: usize = 24;

/// Magic, version and three length fields.
pub const STREAM_HEADER: usize = 29;

/// zstd level for the three streams.
pub const ZSTD_LEVEL: i32 = 9;

/// Whether `p` starts with a valid control stream header whose three
/// stream lengths add up to exactly the bytes that follow it.
pub open spec fn stream_header_ok(p: Seq<u8>) -> bool {
    &&& p.len() >= STREAM_HEADER
    &&& p.subrange(0, 4) == stream_magic()
    &&& p[4] == STREAM_VERSION
    &&& le_u64(p, 5) + le_u64(p, 13) + le_u64(p, 21) == p.len() - STREAM_HEADER
}

/// The compressed control stream of `p`.
pub open spec fn ctrl_part(p: Seq<u8>) -> Seq<u8> {
    p.subrange(STREAM_HEADER as int, STREAM_HEADER + le_u64(p, 5))
}

/// The compressed diff stream of `p`.
pub open spec fn diff_part(p: Seq<u8>) -> Seq<u8> {
    p.subrange(STREAM_HEADER + le_u64(p, 5), STREAM_HEADER + le_u64(p, 5) + le_u64(p, 13))
}

/// The compressed extra stream of `p`.
pub open spec fn extra_part(p: Seq<u8>) -> Seq<u8> {
    p.subrange(STREAM_HEADER + le_u64(p, 5) + le_u64(p, 13), p.len() as int)
}

/// A whole control stream around three compressed streams.
pub open spec fn stream_bytes(ctrl: Seq<u8>, diff: Seq<u8>, extra: Seq<u8>) -> Seq<u8> {
    stream_magic() + seq![STREAM_VERSION] + le_bytes(ctrl.len() as u64) + le_bytes(
        diff.len() as u64,
    ) + le_bytes(extra.len() as u64) + ctrl + diff + extra
}

/// The control stream that packs the control bytes `c`, the diff `d` and
/// the extra bytes `x`, each compressed at `ZSTD_LEVEL`.
pub open spec fn packed(c: Seq<u8>, d: Seq<u8>, x: Seq<u8>) -> Seq<u8> {
    stream_bytes(zstd_frame(c, ZSTD_LEVEL), zstd_frame(d, ZSTD_LEVEL), zstd_frame(x, ZSTD_LEVEL))
}

/// Whether `packed(c, d, x)` decodes within the caps `max_output` sets: the
/// control bytes are tuple aligned, every stream fits its cap, every cap is
/// a valid allocation size, and each compressed frame is non-empty (as every
/// frame zstd produces is).
pub open spec fn packable(c: Seq<u8>, d: Seq<u8>, x: Seq<u8>, max_output: u64) -> bool {
    &&& c.len() % 24 == 0
    &&& c.len() <= ctrl_cap(max_output) <= isize::MAX
    &&& d.len() <= stream_cap(max_output) <= isize::MAX
    &&& x.len() <= stream_cap(max_output)
    &&& zstd_frame(c, ZSTD_LEVEL).len() > 0
    &&& zstd_frame(d, ZSTD_LEVEL).len() > 0
    &&& zstd_frame(x, ZSTD_LEVEL).len() > 0
}

/// What a compressed stream holds: nothing for an empty stream, otherwise
/// the content of its zstd frame.
pub open spec fn inflated(data: Seq<u8>) -> Seq<u8> {
    if data.len() == 0 {
        Seq::<u8>::empty()
    } else {
        zstd_content(data)
    }
}

/// Cap on the decompressed control stream: `24 * (2 * max_output + 8)`,
/// saturated at `u64::MAX`.
pub open spec fn ctrl_cap(max_output: u64) -> u64 {
    if TUPLE_SIZE * (2 * max_output + 8) > u64::MAX {
        u64::MAX
    } else {
        (TUPLE_SIZE * (2 * max_output + 8)) as u64
    }
}

/// Cap on the decompressed diff and extra streams: `max_output + 1`,
/// saturated at `u64::MAX`.
pub open spec fn stream_cap(max_output: u64) -> u64 {
    if max_output == u64::MAX {
        u64::MAX
    } else {
        (max_output + 1) as u64
    }
}

/// The tuple encoded at `c[24 * i..24 * i + 24]`.
pub open spec fn tuple_at(c: Seq<u8>, i: int) -> ControlTuple {
    ControlTuple {
        add: le_u64(c, 24 * i) as i64,
        copy: le_u64(c, 24 * i + 8) as i64,
        seek: le_u64(c, 24 * i + 16) as i64,
    }
}

/// The tuples encoded in a decompressed control stream.
pub open spec fn decode_tuples(c: Seq<u8>) -> Seq<ControlTuple> {
    Seq::new((c.len() / 24) as nat, |i: int| tuple_at(c, i))
}

/// The encoding of one tuple.
pub open spec fn tuple_bytes(t: ControlTuple) -> Seq<u8> {
    le_bytes(t.add as u64) + le_bytes(t.copy as u64) + le_bytes(t.seek as u64)
}

/// The encoding of a tuple sequence.
pub open spec fn tuples_bytes(tuples: Seq<ControlTuple>) -> Seq<u8>
    decreases tuples.len(),
{
    if tuples.len() == 0 {
        Seq::<u8>::empty()
    } else {
        tuples_bytes(tuples.drop_last()) + tuple_bytes(tuples.last())
    }
}

/// The three streams held by the control stream `p`, decompressed within
/// the caps that `max_output` sets, when the header is valid and the
/// control stream is tuple aligned.
pub open spec fn decoded(p: Seq<u8>, max_output: u64) -> Option<
    (Seq<ControlTuple>, Seq<u8>, Seq<u8>),
> {
    let c = inflated(ctrl_part(p));
    let d = inflated(diff_part(p));
    let x = inflated(extra_part(p));
    if stream_header_ok(p) && c.len() <= ctrl_cap(max_output) && d.len() <= stream_cap(max_output)
        && x.len() <= stream_cap(max_output) && c.len() % 24 == 0 {
        Some((decode_tuples(c), d, x))
    } else {
        None
    }
}

/// Decompresses `data`, capping the bytes a corrupt or malicious stream can
/// make the decoder produce at `max_bytes`. An empty stream holds nothing.
pub fn zstd_decompress(data: &[u8], max_bytes: u64) -> (res: Result<Vec<u8>>)
    ensures
        res matches Ok(v) ==> v@ == inflated(data@) && v@.len() <= max_bytes,
        res matches Ok(v) ==> forall|x: Seq<u8>, level: i32|
            data@ == #[trigger] zstd_frame(x, level) && data@.len() > 0 ==> v@ == x,
        res matches Err(e) ==> e is CorruptPatch,
        data@.len() == 0 ==> res is Ok,
        data@.len() > 0 && max_bytes > isize::MAX ==> res is Err,
        (exists|x: Seq<u8>, level: i32|
            data@ == #[trigger] zstd_frame(x, level) && x.len() <= max_bytes && max_bytes
                <= isize::MAX) ==> res is Ok,
{
    if data.len() == 0 {
        return Ok(Vec::new());
    }
    if max_bytes > isize::MAX as u64 {
        return Err(corrupt("decompression bound exceeds address space"));
    }
    let cap = max_bytes as usize;
    match bulk_decompress(data, cap) {
        Ok(out) => {
            if out.len() as u64 > max_bytes {
                return Err(corrupt("decompressed stream exceeds bound"));
            }
            Ok(out)
        },
        Err(e) => Err(corrupt_io("zstd: ", &e)),
    }
}

/// Splits a control stream payload into its three streams. `max_output`
/// bounds the decompressed sizes: every tuple besides at most one seek-only
/// leading tuple contributes at least one output byte, so the streams are
/// capped at small multiples of the expected output size.
pub fn decode_control_stream(payload: &[u8], max_output: u64) -> (res: Result<
    (Vec<ControlTuple>, Vec<u8>, Vec<u8>),
>)
    ensures
        match res {
            Ok((t, d, x)) => decoded(payload@, max_output) == Some((t@, d@, x@)),
            Err(e) => e is CorruptPatch,
        },
        !stream_header_ok(payload@) ==> res is Err,
        forall|c: Seq<u8>, d: Seq<u8>, x: Seq<u8>|
            #[trigger] packed(c, d, x) == payload@ && packable(c, d, x, max_output) ==> (res matches Ok(
                (tt, dd, xx),
            ) && tt@ == decode_tuples(c) && dd@ == d && xx@ == x),
{
    let plen = payload.len();
    proof {
        assert(payload@.len() == plen);
        lemma_stream_layout(payload@);
    }
    if payload.len() < STREAM_HEADER {
        return Err(corrupt("control stream too short"));
    }
    if !(payload[0] == 0x58u8 && payload[1] == 0x50u8 && payload[2] == 0x42u8 && payload[3]
        == 0x53u8) {
        assert(payload@.subrange(0, 4)[0] == payload@[0]);
        assert(payload@.subrange(0, 4)[1] == payload@[1]);
        assert(payload@.subrange(0, 4)[2] == payload@[2]);
        assert(payload@.subrange(0, 4)[3] == payload@[3]);
        return Err(corrupt("bad control stream magic"));
    }
    assert(payload@.subrange(0, 4) =~= stream_magic());
    if payload[4] != STREAM_VERSION {
        return Err(corrupt("unsupported control stream version"));
    }
    let ctrl_len = read_u64_le(payload, 5);
    let diff_len = read_u64_le(payload, 13);
    let extra_len = read_u64_le(payload, 21);
    let rest = (payload.len() - STREAM_HEADER) as u64;
    if ctrl_len as u128 + diff_len as u128 + extra_len as u128 != rest as u128 {
        return Err(corrupt("control stream length mismatch"));
    }
    let c_end = STREAM_HEADER + ctrl_len as usize;
    let d_end = c_end + diff_len as usize;
    let wide_ctrl: u128 = 24 * (2 * (max_output as u128) + 8);
    let max_ctrl: u64 = if wide_ctrl > u64::MAX as u128 {
        u64::MAX
    } else {
        wide_ctrl as u64
    };
    let max_stream: u64 = if max_output == u64::MAX {
        u64::MAX
    } else {
        max_output + 1
    };
    let ctrl_bytes = zstd_decompress(slice_subrange(payload, STREAM_HEADER, c_end), max_ctrl)?;
    let diff = zstd_decompress(slice_subrange(payload, c_end, d_end), max_stream)?;
    let extra = zstd_decompress(slice_subrange(payload, d_end, payload.len()), max_stream)?;
    if ctrl_bytes.len() % TUPLE_SIZE != 0 {
        return Err(corrupt("control stream not tuple aligned"));
    }
    let count = ctrl_bytes.len() / TUPLE_SIZE;
    let mut tuples: Vec<ControlTuple> = Vec::new();
    let mut k: usize = 0;
    while k < count
        invariant
            k <= count,
            count == ctrl_bytes@.len() / 24,
            ctrl_bytes@.len() % 24 == 0,
            tuples@ == decode_tuples(ctrl_bytes@).subrange(0, k as int),
        decreases count - k,
    {
        let clen = ctrl_bytes.len();
        assert(k * 24 + 24 <= clen) by (nonlinear_arith)
            requires
                k < count,
                count == clen / 24,
        ;
        let off = k * 24;
        let t = ControlTuple {
            add: read_u64_le(&ctrl_bytes, off) as i64,
            copy: read_u64_le(&ctrl_bytes, off + 8) as i64,
            seek: read_u64_le(&ctrl_bytes, off + 16) as i64,
        };
        tuples.push(t);
        k = k + 1;
        assert(tuples@ =~= decode_tuples(ctrl_bytes@).subrange(0, k as int));
    }
    assert(decode_tuples(ctrl_bytes@).subrange(0, k as int) =~= decode_tuples(ctrl_bytes@));
    Ok((tuples, diff, extra))
}

/// The header fields and parts of `stream_bytes` are the three streams.
pub proof fn lemma_stream_layout(p: Seq<u8>)
    requires
        p.len() <= u64::MAX,
    ensures
        forall|c: Seq<u8>, d: Seq<u8>, x: Seq<u8>|
            #![trigger stream_bytes(c, d, x)]
            p == stream_bytes(c, d, x) ==> stream_header_ok(p) && ctrl_part(p) == c
                && diff_part(p) == d && extra_part(p) == x,
{
    assert forall|c: Seq<u8>, d: Seq<u8>, x: Seq<u8>|
        #![trigger stream_bytes(c, d, x)]
        p == stream_bytes(c, d, x) implies stream_header_ok(p) && ctrl_part(p) == c
            && diff_part(p) == d && extra_part(p) == x by {
        lemma_stream_fields(c, d, x);
    }
}

/// Reading the header of `stream_bytes(c, d, x)` gives the three lengths.
pub proof fn lemma_stream_fields(c: Seq<u8>, d: Seq<u8>, x: Seq<u8>)
    requires
        c.len() + d.len() + x.len() <= u64::MAX,
    ensures
        ({
            let p = stream_bytes(c, d, x);
            &&& stream_header_ok(p)
            &&& ctrl_part(p) == c
            &&& diff_part(p) == d
            &&& extra_part(p) == x
        }),
{
    let p = stream_bytes(c, d, x);
    assert(p.subrange(0, 4) =~= stream_magic());
    assert(p.subrange(5, 13) =~= le_bytes(c.len() as u64));
    assert(p.subrange(13, 21) =~= le_bytes(d.len() as u64));
    assert(p.subrange(21, 29) =~= le_bytes(x.len() as u64));
    lemma_le_round_trip(c.len() as u64, p, 5);
    lemma_le_round_trip(d.len() as u64, p, 13);
    lemma_le_round_trip(x.len() as u64, p, 21);
    assert(ctrl_part(p) =~= c);
    assert(diff_part(p) =~= d);
    assert(extra_part(p) =~= x);
}

/// One run of producer output: either a region copied from the base (with
/// per-byte deltas) or bytes that exist only in the new bundle.
#[derive(Debug)]
pub enum Segment {
    Copy { pos: usize, len: usize },
    Extra(Vec<u8>),
}

/// Whether every unmatched run of `segs` is non-empty and, unless it is
/// the last segment, followed by a copy: no two unmatched runs touch.
pub open spec fn runs_ok(segs: Seq<Segment>) -> bool {
    forall|i: int|
        0 <= i < segs.len() ==> (#[trigger] segs[i] matches Segment::Extra(d) ==> d@.len() > 0 && (i
            + 1 < segs.len() ==> segs[i + 1] is Copy))
}

/// Turns scan-time match decisions into segments while keeping a small tail
/// of unmatched bytes that a later backward-extended match may still absorb.
pub struct SegmentBuilder {
    segments: Vec<Segment>,
    pending: Vec<u8>,
}

impl SegmentBuilder {
    /// The segments recorded so far.
    pub closed spec fn segs(&self) -> Seq<Segment> {
        self.segments@
    }

    /// The unmatched tail not yet recorded as a segment.
    pub closed spec fn tail(&self) -> Seq<u8> {
        self.pending@
    }

    /// Whether the recorded segments followed by the unmatched tail describe
    /// exactly the bytes `t` over a base of `base_len` bytes.
    /// Whether the recorded segments have the builder's shape: unmatched
    /// runs are non-empty and each is closed by a copy.
    pub open spec fn shaped(&self) -> bool {
        &&& runs_ok(self.segs())
        &&& self.segs().len() > 0 ==> self.segs().last() is Copy
    }

    pub open spec fn describes(&self, base_len: int, t: Seq<u8>) -> bool {
        let k = t.len() - self.tail().len();
        &&& 0 <= k
        &&& fits(base_len, t.subrange(0, k), self.segs())
        &&& self.tail() == t.subrange(k, t.len() as int)
    }

    pub fn new() -> (b: Self)
        ensures
            b.segs().len() == 0,
            b.tail().len() == 0,
            b.shaped(),
            (seg_views(b.segs()), b.tail()) == builder_run(Seq::<BuilderOp>::empty()),
    {
        SegmentBuilder { segments: Vec::new(), pending: Vec::new() }
    }

    /// Appends one unmatched byte to the tail.
    pub fn extra(&mut self, data: u8)
        ensures
            final(self).segs() == old(self).segs(),
            final(self).tail() == old(self).tail().push(data),
            old(self).shaped() ==> final(self).shaped(),
            (seg_views(final(self).segs()), final(self).tail()) == builder_step(
                (seg_views(old(self).segs()), old(self).tail()),
                BuilderOp::Extra(data),
            ),
    {
        self.pending.push(data);
    }

    /// Records a copy region `updated[new_start..new_start+length]` taken
    /// from `base[base_pos..base_pos+length]` and flushes any pending
    /// unmatched bytes that precede it.
    pub fn match_region(&mut self, _new_start: usize, length: usize, base_pos: usize)
        ensures
            final(self).tail().len() == 0,
            old(self).tail().len() == 0 ==> final(self).segs() == old(self).segs().push(
                Segment::Copy { pos: base_pos, len: length },
            ),
            old(self).tail().len() > 0 ==> {
                &&& final(self).segs().len() == old(self).segs().len() + 2
                &&& final(self).segs().subrange(0, old(self).segs().len() as int) == old(
                    self,
                ).segs()
                &&& final(self).segs()[old(self).segs().len() as int] matches Segment::Extra(d)
                    && d@ == old(self).tail()
                &&& final(self).segs().last() == Segment::Copy { pos: base_pos, len: length }
            },
            old(self).shaped() ==> final(self).shaped(),
            (seg_views(final(self).segs()), final(self).tail()) == builder_step(
                (seg_views(old(self).segs()), old(self).tail()),
                BuilderOp::Match { pos: base_pos as int, len: length as int },
            ),
    {
        let ghost before = (self.segs(), self.tail());
        if self.pending.len() > 0 {
            let mut taken: Vec<u8> = Vec::new();
            std::mem::swap(&mut taken, &mut self.pending);
            let ghost s0 = self.segments@;
            self.segments.push(Segment::Extra(taken));
            proof {
                lemma_views_push(s0, self.segments@.last());
            }
        }
        let ghost s1 = self.segments@;
        self.segments.push(Segment::Copy { pos: base_pos, len: length });
        proof {
            lemma_views_push(s1, Segment::Copy { pos: base_pos, len: length });
            assert(self.tail() =~= Seq::<u8>::empty());
        }
    }

    /// Length of the pending tail (matchers consult it before extending
    /// backwards).
    pub fn pending_len(&self) -> (n: usize)
        ensures
            n == self.tail().len(),
    {
        self.pending.len()
    }

    /// Shrinks the pending tail by `n` bytes absorbed by a backward-extended
    /// match.
    pub fn reclaim_pending(&mut self, n: usize)
        ensures
            final(self).segs() == old(self).segs(),
            final(self).tail() == if 0 < n <= old(self).tail().len() {
                old(self).tail().subrange(0, old(self).tail().len() - n)
            } else {
                old(self).tail()
            },
            old(self).shaped() ==> final(self).shaped(),
            (seg_views(final(self).segs()), final(self).tail()) == builder_step(
                (seg_views(old(self).segs()), old(self).tail()),
                BuilderOp::Reclaim(n as int),
            ),
    {
        if n > 0 && n <= self.pending.len() {
            let keep = self.pending.len() - n;
            self.pending.truncate(keep);
        }
    }

    /// The recorded segments, with the tail as a final unmatched run.
    pub fn finish(self) -> (segs: Vec<Segment>)
        ensures
            self.tail().len() == 0 ==> segs@ == self.segs(),
            self.tail().len() > 0 ==> {
                &&& segs@.len() == self.segs().len() + 1
                &&& segs@.drop_last() == self.segs()
                &&& segs@.last() matches Segment::Extra(d) && d@ == self.tail()
            },
            self.shaped() ==> runs_ok(segs@),
            seg_views(segs@) == finished((seg_views(self.segs()), self.tail())),
    {
        let mut segments = self.segments;
        if self.pending.len() > 0 {
            let ghost s0 = segments@;
            segments.push(Segment::Extra(self.pending));
            proof {
                lemma_views_push(s0, segments@.last());
            }
        }
        segments
    }
}

/// A builder that describes `t` finishes into segments that fit `t`.
pub proof fn lemma_finish_fits(b: SegmentBuilder, base_len: int, t: Seq<u8>, segs: Seq<Segment>)
    requires
        b.describes(base_len, t),
        b.tail().len() == 0 ==> segs == b.segs(),
        b.tail().len() > 0 ==> {
            &&& segs.len() == b.segs().len() + 1
            &&& segs.drop_last() == b.segs()
            &&& segs.last() matches Segment::Extra(d) && d@ == b.tail()
        },
    ensures
        fits(base_len, t, segs),
{
    assert(t.subrange(0, t.len() as int) == t);
}

/// Appending an unmatched byte keeps the builder describing the bytes read.
pub proof fn lemma_extra_describes(
    old_b: SegmentBuilder,
    new_b: SegmentBuilder,
    base_len: int,
    t: Seq<u8>,
    byte: u8,
)
    requires
        old_b.describes(base_len, t),
        new_b.segs() == old_b.segs(),
        new_b.tail() == old_b.tail().push(byte),
    ensures
        new_b.describes(base_len, t.push(byte)),
{
    let k = t.len() - old_b.tail().len();
    assert(t.push(byte).subrange(0, k) == t.subrange(0, k));
    assert(new_b.tail() =~= t.push(byte).subrange(k, t.len() + 1 as int));
}

/// Recording a non-empty copy region of the base keeps the builder
/// describing the bytes read, extended by the region's length.
pub proof fn lemma_match_describes(
    old_b: SegmentBuilder,
    new_b: SegmentBuilder,
    base_len: int,
    t: Seq<u8>,
    ext: Seq<u8>,
    pos: usize,
    len: usize,
)
    requires
        old_b.describes(base_len, t),
        len > 0,
        pos + len <= base_len,
        ext.len() == len,
        new_b.tail().len() == 0,
        old_b.tail().len() == 0 ==> new_b.segs() == old_b.segs().push(
            Segment::Copy { pos, len },
        ),
        old_b.tail().len() > 0 ==> {
            &&& new_b.segs().len() == old_b.segs().len() + 2
            &&& new_b.segs().subrange(0, old_b.segs().len() as int) == old_b.segs()
            &&& new_b.segs()[old_b.segs().len() as int] matches Segment::Extra(d) && d@
                == old_b.tail()
            &&& new_b.segs().last() == Segment::Copy { pos, len }
        },
    ensures
        new_b.describes(base_len, t + ext),
{
    let u = t + ext;
    let k = t.len() - old_b.tail().len();
    let s = new_b.segs();
    assert(u.subrange(0, u.len() as int) == u);
    assert(u.subrange(u.len() as int, u.len() as int) =~= Seq::<u8>::empty());
    if old_b.tail().len() == 0 {
        assert(s.drop_last() == old_b.segs());
        assert(u.subrange(0, u.len() - len) =~= t);
        assert(t.subrange(0, k) == t);
    } else {
        let mid = s.drop_last();
        assert(mid.drop_last() =~= old_b.segs());
        assert(mid.last() == s[old_b.segs().len() as int]);
        assert(u.subrange(0, u.len() - len) =~= t);
        assert(t.subrange(0, t.len() - old_b.tail().len()) == t.subrange(0, k));
        assert(fits(base_len, t, mid));
    }
    assert(fits(base_len, u, s));
    assert(new_b.tail() =~= Seq::<u8>::empty());
}

/// How many bytes of the new bundle a segment covers.
pub open spec fn seg_len(s: Segment) -> int {
    match s {
        Segment::Copy { pos, len } => len as int,
        Segment::Extra(d) => d@.len() as int,
    }
}

/// How many bytes of the new bundle the segments cover together.
pub open spec fn covered(segs: Seq<Segment>) -> int
    decreases segs.len(),
{
    if segs.len() == 0 {
        0
    } else {
        covered(segs.drop_last()) + seg_len(segs.last())
    }
}

/// How many of the segments are copies.
pub open spec fn copies(segs: Seq<Segment>) -> int
    decreases segs.len(),
{
    if segs.len() == 0 {
        0
    } else {
        copies(segs.drop_last()) + if segs.last() is Copy {
            1int
        } else {
            0int
        }
    }
}

/// Whether `segs`, laid end to end, describe exactly the bytes `t`: every
/// copy is non-empty and lies within a base of `base_len` bytes, and every
/// extra run is non-empty and holds the bytes of `t` it covers.
pub open spec fn fits(base_len: int, t: Seq<u8>, segs: Seq<Segment>) -> bool
    decreases segs.len(),
{
    if segs.len() == 0 {
        t.len() == 0
    } else {
        let l = seg_len(segs.last());
        &&& l <= t.len()
        &&& fits(base_len, t.subrange(0, t.len() - l), segs.drop_last())
        &&& match segs.last() {
            Segment::Copy { pos, len } => len > 0 && pos + len <= base_len,
            Segment::Extra(d) => d@.len() > 0 && d@ == t.subrange(t.len() - l, t.len() as int),
        }
    }
}

/// Whether every copy of `segs` lies within a base of `base_len` bytes and
/// the segments together cover at most `upd_len` bytes of the new bundle.
pub open spec fn in_range(base_len: int, upd_len: int, segs: Seq<Segment>) -> bool {
    &&& forall|i: int|
        0 <= i < segs.len() ==> (#[trigger] segs[i] matches Segment::Copy { pos, len } ==> pos + len
            <= base_len)
    &&& covered(segs) <= upd_len
}

/// A prefix of the segments covers no more than all of them.
pub proof fn lemma_covered_prefix(segs: Seq<Segment>, k: int)
    requires
        0 <= k <= segs.len(),
    ensures
        0 <= covered(segs.subrange(0, k)) <= covered(segs),
    decreases segs.len(),
{
    if k == segs.len() {
        assert(segs.subrange(0, k) == segs);
        lemma_covered_nonneg(segs);
    } else {
        lemma_covered_prefix(segs.drop_last(), k);
        assert(segs.drop_last().subrange(0, k) == segs.subrange(0, k));
    }
}

/// Segments cover a nonnegative number of bytes.
pub proof fn lemma_covered_nonneg(segs: Seq<Segment>)
    ensures
        covered(segs) >= 0,
    decreases segs.len(),
{
    if segs.len() > 0 {
        lemma_covered_nonneg(segs.drop_last());
    }
}

/// Segments that describe `t` exactly lie in range of it.
pub proof fn lemma_fits_in_range(base_len: int, t: Seq<u8>, segs: Seq<Segment>)
    requires
        fits(base_len, t, segs),
    ensures
        in_range(base_len, t.len() as int, segs),
        covered(segs) == t.len(),
    decreases segs.len(),
{
    if segs.len() > 0 {
        let l = seg_len(segs.last());
        lemma_fits_in_range(base_len, t.subrange(0, t.len() - l), segs.drop_last());
        assert forall|i: int| 0 <= i < segs.len() implies (#[trigger] segs[i] matches Segment::Copy {
            pos,
            len,
        } ==> pos + len <= base_len) by {
            if i < segs.len() - 1 {
                assert(segs[i] == segs.drop_last()[i]);
            }
        }
    }
}

/// The total of the `add` fields of `ts`.
pub open spec fn add_total(ts: Seq<ControlTuple>) -> int
    decreases ts.len(),
{
    if ts.len() == 0 {
        0
    } else {
        add_total(ts.drop_last()) + ts.last().add
    }
}

/// The total of the `copy` fields of `ts`.
pub open spec fn copy_total(ts: Seq<ControlTuple>) -> int
    decreases ts.len(),
{
    if ts.len() == 0 {
        0
    } else {
        copy_total(ts.drop_last()) + ts.last().copy
    }
}

/// How many bytes the copies of `segs` cover.
pub open spec fn copy_len(segs: Seq<Segment>) -> int
    decreases segs.len(),
{
    if segs.len() == 0 {
        0
    } else {
        copy_len(segs.drop_last()) + match segs.last() {
            Segment::Copy { pos, len } => len as int,
            Segment::Extra(_) => 0int,
        }
    }
}

/// How many bytes the unmatched runs of `segs` hold.
pub open spec fn extra_len(segs: Seq<Segment>) -> int
    decreases segs.len(),
{
    if segs.len() == 0 {
        0
    } else {
        extra_len(segs.drop_last()) + match segs.last() {
            Segment::Copy { .. } => 0int,
            Segment::Extra(d) => d@.len() as int,
        }
    }
}

/// Whether every copy of `segs` is non-empty.
pub open spec fn copies_nonempty(segs: Seq<Segment>) -> bool {
    forall|i: int|
        0 <= i < segs.len() ==> (#[trigger] segs[i] matches Segment::Copy { pos, len } ==> len > 0)
}

/// Copies and unmatched runs together cover what the segments cover.
pub proof fn lemma_lens_cover(segs: Seq<Segment>)
    ensures
        copy_len(segs) + extra_len(segs) == covered(segs),
        0 <= copy_len(segs),
        0 <= extra_len(segs),
    decreases segs.len(),
{
    if segs.len() > 0 {
        lemma_lens_cover(segs.drop_last());
    }
}

/// The state after `k` segments: its tuples add what the closed copies
/// cover and copy what the flushed unmatched runs hold; only a tuple
/// emitted before any copy closes has nothing to add, so with non-empty
/// copies every later tuple adds at least one byte.
pub proof fn lemma_emit_totals(base: Seq<u8>, upd: Seq<u8>, segs: Seq<Segment>, k: int)
    requires
        base.len() <= i64::MAX,
        upd.len() <= i64::MAX,
        in_range(base.len() as int, upd.len() as int, segs),
        0 <= k <= segs.len(),
    ensures
        ({
            let st = emit_prefix(base, upd, segs, k);
            let pre = segs.subrange(0, k);
            &&& add_total(st.0) + (match st.3 {
                Some((p, l, n)) => l as int,
                None => 0int,
            }) == copy_len(pre)
            &&& copy_total(st.0) + st.4.len() == extra_len(pre)
            &&& st.3 is None ==> st.0.len() == 0
            &&& forall|j: int| 0 <= j < st.0.len() ==> #[trigger] st.0[j].add >= 0 && st.0[j].copy >= 0
            &&& copies_nonempty(segs) ==> forall|j: int|
                1 <= j < st.0.len() ==> #[trigger] st.0[j].add >= 1
            &&& st.3 matches Some((p, l, n)) ==> (copies_nonempty(segs) ==> l >= 1)
            &&& 0 <= add_total(st.0)
            &&& 0 <= copy_total(st.0)
        }),
    decreases k,
{
    if k > 0 {
        lemma_emit_totals(base, upd, segs, k - 1);
        let st = emit_prefix(base, upd, segs, k - 1);
        let pre = segs.subrange(0, k);
        assert(pre.drop_last() =~= segs.subrange(0, k - 1));
        assert(pre.last() == segs[k - 1]);
        lemma_covered_prefix(segs, k - 1);
        lemma_lens_cover(segs.subrange(0, k - 1));
        lemma_lens_cover(pre);
        lemma_covered_prefix(segs, k);
        let s = segs[k - 1];
        assert(st.4.len() <= extra_len(segs.subrange(0, k - 1)));
        assert(covered(segs) <= upd.len());
        match s {
            Segment::Copy { pos, len } => {
                assert(pos + len <= base.len());
                let f = flush(base, upd, st, Some(pos));
                match st.3 {
                    None => {
                        let seek: i64 = if pos > 0 {
                            pos as i64
                        } else {
                            0i64
                        };
                        if st.4.len() > 0 || seek != 0 {
                            let t = ControlTuple { add: 0, copy: st.4.len() as i64, seek };
                            assert(f.0 == st.0.push(t));
                            assert(st.0.push(t).drop_last() =~= st.0);
                            assert(st.0.push(t).last() == t);
                        } else {
                            assert(f == st);
                            assert(st.4.len() == 0);
                        }
                    },
                    Some((p0, l0, n0)) => {
                        let seek: i64 = (pos - p0) as i64;
                        let t = ControlTuple { add: l0 as i64, copy: st.4.len() as i64, seek };
                        assert(f.0 == st.0.push(t));
                        assert(st.0.push(t).drop_last() =~= st.0);
                        assert(st.0.push(t).last() == t);
                        assert(l0 <= copy_len(segs.subrange(0, k - 1)));
                    },
                }
            },
            Segment::Extra(d) => {},
        }
    }
}

/// Tuples that each add at least one byte after the first add at least
/// one byte per tuple but one.
proof fn lemma_add_total_counts(ts: Seq<ControlTuple>)
    requires
        forall|j: int| 0 <= j < ts.len() ==> #[trigger] ts[j].add >= 0,
        forall|j: int| 1 <= j < ts.len() ==> #[trigger] ts[j].add >= 1,
    ensures
        add_total(ts) >= ts.len() - 1,
        add_total(ts) >= 0,
    decreases ts.len(),
{
    if ts.len() > 0 {
        let d = ts.drop_last();
        assert forall|j: int| 0 <= j < d.len() implies #[trigger] d[j].add >= 0 by {
            assert(d[j] == ts[j]);
        }
        assert forall|j: int| 1 <= j < d.len() implies #[trigger] d[j].add >= 1 by {
            assert(d[j] == ts[j]);
        }
        lemma_add_total_counts(d);
    }
}

/// The tuples that encode `segs` add exactly what its copies cover and
/// copy exactly what its unmatched runs hold; with non-empty copies, every
/// tuple after the first adds at least one byte, so there is at most one
/// tuple more than the bytes covered.
pub proof fn lemma_emitted_totals(base: Seq<u8>, upd: Seq<u8>, segs: Seq<Segment>)
    requires
        base.len() <= i64::MAX,
        upd.len() <= i64::MAX,
        in_range(base.len() as int, upd.len() as int, segs),
    ensures
        ({
            let ts = emitted(base, upd, segs).0;
            &&& add_total(ts) == copy_len(segs)
            &&& copy_total(ts) == extra_len(segs)
            &&& forall|j: int| 0 <= j < ts.len() ==> #[trigger] ts[j].add >= 0 && ts[j].copy >= 0
            &&& copies_nonempty(segs) ==> forall|j: int| 1 <= j < ts.len() ==> #[trigger] ts[j].add >= 1
            &&& copies_nonempty(segs) ==> ts.len() <= covered(segs) + 1
        }),
{
    let k = segs.len() as int;
    lemma_emit_totals(base, upd, segs, k);
    assert(segs.subrange(0, k) == segs);
    lemma_lens_cover(segs);
    let st = emit_prefix(base, upd, segs, k);
    let f = flush(base, upd, st, None);
    match st.3 {
        None => {
            if st.4.len() > 0 {
                let t = ControlTuple { add: 0, copy: st.4.len() as i64, seek: 0 };
                assert(f.0 == st.0.push(t));
                assert(st.0.push(t).drop_last() =~= st.0);
            } else {
                assert(f == st);
            }
        },
        Some((p0, l0, n0)) => {
            let t = ControlTuple { add: l0 as i64, copy: st.4.len() as i64, seek: 0 };
            assert(f.0 == st.0.push(t));
            assert(st.0.push(t).drop_last() =~= st.0);
        },
    }
    if copies_nonempty(segs) {
        lemma_add_total_counts(f.0);
    }
}

/// Emission state: tuples, diff and extra streams so far, the copy whose
/// tuple is still open (base position, length, new-bundle offset), the
/// unmatched bytes waiting for it, and the new-bundle offset reached.
pub type EmitState = (
    Seq<ControlTuple>,
    Seq<u8>,
    Seq<u8>,
    Option<(usize, usize, usize)>,
    Seq<u8>,
    int,
);

/// Closes the open copy (or, before the first copy, the leading unmatched
/// bytes) with one tuple whose seek positions the base for the copy at
/// `next`.
pub open spec fn flush(base: Seq<u8>, upd: Seq<u8>, st: EmitState, next: Option<usize>) -> EmitState {
    match st.3 {
        None => {
            let seek: i64 = match next {
                Some(p) => if p > 0 {
                    p as i64
                } else {
                    0i64
                },
                None => 0i64,
            };
            if st.4.len() > 0 || seek != 0 {
                (
                    st.0.push(ControlTuple { add: 0, copy: st.4.len() as i64, seek }),
                    st.1,
                    st.2 + st.4,
                    None,
                    Seq::<u8>::empty(),
                    st.5,
                )
            } else {
                st
            }
        },
        Some((pos, len, ns)) => {
            let seek: i64 = match next {
                Some(p) => (p - pos) as i64,
                None => 0i64,
            };
            (
                st.0.push(ControlTuple { add: len as i64, copy: st.4.len() as i64, seek }),
                st.1 + Seq::new(len as nat, |i: int| byte_sub(upd[ns + i], base[pos + i])),
                st.2 + st.4,
                None,
                Seq::<u8>::empty(),
                st.5,
            )
        },
    }
}

/// The state after one more segment.
pub open spec fn advance(base: Seq<u8>, upd: Seq<u8>, st: EmitState, s: Segment) -> EmitState {
    match s {
        Segment::Copy { pos, len } => {
            let f = flush(base, upd, st, Some(pos));
            (f.0, f.1, f.2, Some((pos, len, st.5 as usize)), f.4, st.5 + len)
        },
        Segment::Extra(d) => (st.0, st.1, st.2, st.3, st.4 + d@, st.5 + d@.len()),
    }
}

/// The state after the first `k` segments.
pub open spec fn emit_prefix(base: Seq<u8>, upd: Seq<u8>, segs: Seq<Segment>, k: int) -> EmitState
    decreases k,
{
    if k <= 0 {
        (
            Seq::<ControlTuple>::empty(),
            Seq::<u8>::empty(),
            Seq::<u8>::empty(),
            None,
            Seq::<u8>::empty(),
            0,
        )
    } else {
        advance(base, upd, emit_prefix(base, upd, segs, k - 1), segs[k - 1])
    }
}

/// The tuples, diff stream and extra stream that encode `segs`.
pub open spec fn emitted(base: Seq<u8>, upd: Seq<u8>, segs: Seq<Segment>) -> EmitState {
    flush(base, upd, emit_prefix(base, upd, segs, segs.len() as int), None)
}

/// What a segment stands for, its unmatched bytes taken by value.
pub enum SegView {
    Copy { pos: int, len: int },
    Extra(Seq<u8>),
}

/// The view of one segment.
pub open spec fn seg_view(s: Segment) -> SegView {
    match s {
        Segment::Copy { pos, len } => SegView::Copy { pos: pos as int, len: len as int },
        Segment::Extra(d) => SegView::Extra(d@),
    }
}

/// The views of the segments, in order.
pub open spec fn seg_views(segs: Seq<Segment>) -> Seq<SegView> {
    segs.map_values(|s: Segment| seg_view(s))
}

/// The control stream payload that encodes `segs`.
pub open spec fn serialized(base: Seq<u8>, upd: Seq<u8>, segs: Seq<Segment>) -> Seq<u8> {
    let e = emitted(base, upd, segs);
    packed(tuples_bytes(e.0), e.1, e.2)
}

/// One call on a `SegmentBuilder`: `extra`, `match_region` (base position
/// and length) or `reclaim_pending`.
pub enum BuilderOp {
    Extra(u8),
    Match { pos: int, len: int },
    Reclaim(int),
}

/// The builder's segments (as views) and pending bytes after one call.
pub open spec fn builder_step(st: (Seq<SegView>, Seq<u8>), op: BuilderOp) -> (Seq<SegView>, Seq<u8>) {
    match op {
        BuilderOp::Extra(b) => (st.0, st.1.push(b)),
        BuilderOp::Match { pos, len } => {
            let flushed = if st.1.len() > 0 {
                st.0.push(SegView::Extra(st.1))
            } else {
                st.0
            };
            (flushed.push(SegView::Copy { pos, len }), Seq::<u8>::empty())
        },
        BuilderOp::Reclaim(n) => (
            st.0,
            if 0 < n <= st.1.len() {
                st.1.subrange(0, st.1.len() - n)
            } else {
                st.1
            },
        ),
    }
}

/// The builder's state after `new` and the calls `ops`, in order.
pub open spec fn builder_run(ops: Seq<BuilderOp>) -> (Seq<SegView>, Seq<u8>)
    decreases ops.len(),
{
    if ops.len() == 0 {
        (Seq::<SegView>::empty(), Seq::<u8>::empty())
    } else {
        builder_step(builder_run(ops.drop_last()), ops.last())
    }
}

/// What `finish` returns from a state: the segments, then the pending
/// bytes as a final unmatched run if there are any.
pub open spec fn finished(st: (Seq<SegView>, Seq<u8>)) -> Seq<SegView> {
    if st.1.len() > 0 {
        st.0.push(SegView::Extra(st.1))
    } else {
        st.0
    }
}

/// The (position, length) of every copy in `v`, in order.
pub open spec fn copy_list(v: Seq<SegView>) -> Seq<(int, int)>
    decreases v.len(),
{
    if v.len() == 0 {
        Seq::<(int, int)>::empty()
    } else {
        match v.last() {
            SegView::Copy { pos, len } => copy_list(v.drop_last()).push((pos, len)),
            SegView::Extra(_) => copy_list(v.drop_last()),
        }
    }
}

/// The (position, length) of every `match_region` call in `ops`, in order.
pub open spec fn match_list(ops: Seq<BuilderOp>) -> Seq<(int, int)>
    decreases ops.len(),
{
    if ops.len() == 0 {
        Seq::<(int, int)>::empty()
    } else {
        match ops.last() {
            BuilderOp::Match { pos, len } => match_list(ops.drop_last()).push((pos, len)),
            _ => match_list(ops.drop_last()),
        }
    }
}

/// Whether every unmatched run of `v` is non-empty and no two unmatched
/// runs are adjacent.
pub open spec fn views_ok(v: Seq<SegView>) -> bool {
    forall|i: int|
        0 <= i < v.len() ==> (#[trigger] v[i] matches SegView::Extra(d) ==> d.len() > 0 && (i + 1
            < v.len() ==> v[i + 1] is Copy))
}

/// Whatever calls follow `new`, `finish` returns segments with no empty
/// unmatched run and no two unmatched runs in a row, whose copies are
/// exactly the `match_region` calls, in call order.
pub proof fn lemma_builder_law(ops: Seq<BuilderOp>)
    ensures
        views_ok(finished(builder_run(ops))),
        copy_list(finished(builder_run(ops))) == match_list(ops),
{
    lemma_builder_run_shape(ops);
    let st = builder_run(ops);
    if st.1.len() > 0 {
        let f = st.0.push(SegView::Extra(st.1));
        assert(f.drop_last() == st.0);
        assert forall|i: int| 0 <= i < f.len() implies (#[trigger] f[i] matches SegView::Extra(d)
            ==> d.len() > 0 && (i + 1 < f.len() ==> f[i + 1] is Copy)) by {
            if i < st.0.len() {
                assert(f[i] == st.0[i]);
                if i + 1 < st.0.len() {
                    assert(f[i + 1] == st.0[i + 1]);
                }
            }
        }
    }
}

/// The builder's recorded segments keep the law's shape, each unmatched
/// run closed by a copy, and list the copies of the calls so far.
proof fn lemma_builder_run_shape(ops: Seq<BuilderOp>)
    ensures
        views_ok(builder_run(ops).0),
        builder_run(ops).0.len() > 0 ==> builder_run(ops).0.last() is Copy,
        copy_list(builder_run(ops).0) == match_list(ops),
    decreases ops.len(),
{
    if ops.len() > 0 {
        lemma_builder_run_shape(ops.drop_last());
        let st = builder_run(ops.drop_last());
        match ops.last() {
            BuilderOp::Match { pos, len } => {
                let flushed = if st.1.len() > 0 {
                    st.0.push(SegView::Extra(st.1))
                } else {
                    st.0
                };
                let v = flushed.push(SegView::Copy { pos, len });
                assert(v.drop_last() == flushed);
                assert(v.last() == SegView::Copy { pos, len });
                if st.1.len() > 0 {
                    assert(flushed.drop_last() == st.0);
                    assert(flushed.last() == SegView::Extra(st.1));
                    assert(copy_list(flushed) == copy_list(st.0));
                }
                assert(copy_list(v) == copy_list(flushed).push((pos, len)));
                assert(match_list(ops) == match_list(ops.drop_last()).push((pos, len)));
                assert(builder_run(ops).0 == v);
                assert forall|i: int| 0 <= i < v.len() implies (#[trigger] v[i] matches SegView::Extra(
                    d,
                ) ==> d.len() > 0 && (i + 1 < v.len() ==> v[i + 1] is Copy)) by {
                    if i < st.0.len() {
                        assert(v[i] == st.0[i]);
                        if i + 1 < st.0.len() {
                            assert(v[i + 1] == st.0[i + 1]);
                        }
                    }
                }
            },
            _ => {},
        }
    }
}

/// The views of one more segment are one more view.
pub proof fn lemma_views_push(segs: Seq<Segment>, s: Segment)
    ensures
        seg_views(segs.push(s)) == seg_views(segs).push(seg_view(s)),
{
    assert(seg_views(segs.push(s)) =~= seg_views(segs).push(seg_view(s)));
}

/// Segments with the same views emit the same streams.
pub proof fn lemma_emitted_views(base: Seq<u8>, upd: Seq<u8>, s1: Seq<Segment>, s2: Seq<Segment>)
    requires
        seg_views(s1) == seg_views(s2),
    ensures
        emitted(base, upd, s1) == emitted(base, upd, s2),
        serialized(base, upd, s1) == serialized(base, upd, s2),
{
    assert(s1.len() == seg_views(s1).len());
    assert(s2.len() == seg_views(s2).len());
    lemma_emit_prefix_views(base, upd, s1, s2, s1.len() as int);
}

/// The states after the first `k` segments agree when the views do.
proof fn lemma_emit_prefix_views(
    base: Seq<u8>,
    upd: Seq<u8>,
    s1: Seq<Segment>,
    s2: Seq<Segment>,
    k: int,
)
    requires
        seg_views(s1) == seg_views(s2),
        k <= s1.len(),
    ensures
        emit_prefix(base, upd, s1, k) == emit_prefix(base, upd, s2, k),
    decreases k,
{
    if k > 0 {
        lemma_emit_prefix_views(base, upd, s1, s2, k - 1);
        assert(seg_views(s1).len() == s1.len());
        assert(seg_views(s2).len() == s2.len());
        assert(seg_views(s1)[k - 1] == seg_view(s1[k - 1]));
        assert(seg_views(s2)[k - 1] == seg_view(s2[k - 1]));
        assert(seg_view(s1[k - 1]) == seg_view(s2[k - 1]));
    }
}

/// Whether the exec emission state matches `st` and stays within bounds.
pub open spec fn emit_inv(base: Seq<u8>, upd: Seq<u8>, st: EmitState) -> bool {
    &&& base.len() <= i64::MAX
    &&& upd.len() <= i64::MAX
    &&& st.4.len() <= upd.len()
    &&& match st.3 {
        Some((pos, len, ns)) => pos + len <= base.len() && ns + len <= upd.len(),
        None => true,
    }
}

/// Closes the open copy, or the leading unmatched bytes, with one tuple
/// (see `flush`).
#[allow(clippy::too_many_arguments)]
pub fn emit_copy(
    tuples: &mut Vec<ControlTuple>,
    diff: &mut Vec<u8>,
    extra: &mut Vec<u8>,
    last_copy: &mut Option<(usize, usize, usize)>,
    pending: &mut Vec<u8>,
    next_pos: Option<usize>,
    base: &[u8],
    updated: &[u8],
)
    requires
        base@.len() <= i64::MAX,
        *old(last_copy) matches Some((pos, len, ns)) ==> pos + len <= base@.len() && ns + len
            <= updated@.len(),
        next_pos matches Some(p) ==> p <= i64::MAX,
    ensures
        ({
            let f = flush(
                base@,
                updated@,
                (old(tuples)@, old(diff)@, old(extra)@, *old(last_copy), old(pending)@, 0),
                next_pos,
            );
            &&& final(tuples)@ == f.0
            &&& final(diff)@ == f.1
            &&& final(extra)@ == f.2
            &&& *final(last_copy) == f.3
            &&& final(pending)@ == f.4
        }),
{
    match last_copy.take() {
        None => {
            // Position the pointer for the first read; it starts at 0.
            let seek: i64 = match next_pos {
                Some(p) => if p > 0 {
                    p as i64
                } else {
                    0
                },
                None => 0,
            };
            if pending.len() > 0 || seek != 0 {
                tuples.push(ControlTuple { add: 0, copy: pending.len() as i64, seek });
                extra.append(pending);
            }
        },
        Some((pos, len, new_start)) => {
            let seek: i64 = match next_pos {
                Some(p) => p as i64 - pos as i64,
                None => 0,
            };
            tuples.push(ControlTuple { add: len as i64, copy: pending.len() as i64, seek });
            let ghost d0 = diff@;
            let mut i: usize = 0;
            while i < len
                invariant
                    i <= len,
                    pos + len <= base.len(),
                    new_start + len <= updated.len(),
                    diff@ == d0 + Seq::new(
                        i as nat,
                        |k: int| byte_sub(updated@[new_start + k], base@[pos + k]),
                    ),
                decreases len - i,
            {
                diff.push(updated[new_start + i].wrapping_sub(base[pos + i]));
                i = i + 1;
                assert(diff@ =~= d0 + Seq::new(
                    i as nat,
                    |k: int| byte_sub(updated@[new_start + k], base@[pos + k]),
                ));
            }
            extra.append(pending);
        },
    }
}

/// Deterministically compresses data (bulk API, single threaded, fixed
/// level): identical input always yields identical output.
pub fn zstd_compress(data: &[u8]) -> (res: Result<Vec<u8>>)
    ensures
        res matches Ok(v) ==> v@ == zstd_frame(data@, ZSTD_LEVEL) && v@.len() > 0,
        res is Ok,
{
    match bulk_compress(data, ZSTD_LEVEL) {
        Ok(v) => Ok(v),
        Err(e) => Err(codec_io_failure("zstd: ", &e)),
    }
}

/// Encodes the segments as a control stream payload.
pub fn serialize_segments(base: &[u8], updated: &[u8], segments: &[Segment]) -> (res: Result<
    Vec<u8>,
>)
    requires
        base@.len() <= i64::MAX,
        updated@.len() <= i64::MAX,
        in_range(base@.len() as int, updated@.len() as int, segments@),
    ensures
        res matches Ok(out) ==> ({
            let e = emitted(base@, updated@, segments@);
            &&& out@ == packed(tuples_bytes(e.0), e.1, e.2)
            &&& zstd_frame(tuples_bytes(e.0), ZSTD_LEVEL).len() > 0
            &&& zstd_frame(e.1, ZSTD_LEVEL).len() > 0
            &&& zstd_frame(e.2, ZSTD_LEVEL).len() > 0
            &&& add_total(e.0) == copy_len(segments@)
            &&& copy_total(e.0) == extra_len(segments@)
            &&& forall|j: int| 0 <= j < e.0.len() ==> #[trigger] e.0[j].add >= 0 && e.0[j].copy >= 0
            &&& copies_nonempty(segments@) ==> forall|j: int|
                1 <= j < e.0.len() ==> #[trigger] e.0[j].add >= 1
            &&& copies_nonempty(segments@) ==> e.0.len() <= updated@.len() + 1
        }),
        res is Ok,
{
    let mut tuples: Vec<ControlTuple> = Vec::new();
    let mut diff: Vec<u8> = Vec::new();
    let mut extra: Vec<u8> = Vec::new();
    let mut last_copy: Option<(usize, usize, usize)> = None;
    let mut pending: Vec<u8> = Vec::new();
    let mut new_cursor: usize = 0;
    let mut i: usize = 0;
    while i < segments.len()
        invariant
            i <= segments@.len(),
            base@.len() <= i64::MAX,
            updated@.len() <= i64::MAX,
            in_range(base@.len() as int, updated@.len() as int, segments@),
            emit_prefix(base@, updated@, segments@, i as int) == (
                tuples@,
                diff@,
                extra@,
                last_copy,
                pending@,
                new_cursor as int,
            ),
            emit_inv(base@, updated@, (tuples@, diff@, extra@, last_copy, pending@, 0)),
            new_cursor == covered(segments@.subrange(0, i as int)),
            new_cursor <= updated@.len(),
            pending@.len() <= new_cursor,
            last_copy matches Some((p, l, ns)) ==> ns + l + pending@.len() == new_cursor,
        decreases segments@.len() - i,
    {
        proof {
            lemma_covered_prefix(segments@, i + 1);
            assert(segments@.subrange(0, i + 1).drop_last() == segments@.subrange(0, i as int));
            assert(segments@.subrange(0, i + 1).last() == segments@[i as int]);
            assert(covered(segments@.subrange(0, i + 1)) == new_cursor + seg_len(
                segments@[i as int],
            ));
        }
        match &segments[i] {
            Segment::Copy { pos, len } => {
                emit_copy(
                    &mut tuples,
                    &mut diff,
                    &mut extra,
                    &mut last_copy,
                    &mut pending,
                    Some(*pos),
                    base,
                    updated,
                );
                assert(seg_len(segments@[i as int]) == *len);
                assert(new_cursor + *len <= updated.len());
                last_copy = Some((*pos, *len, new_cursor));
                new_cursor = new_cursor + *len;
            },
            Segment::Extra(data) => {
                assert(seg_len(segments@[i as int]) == data@.len());
                assert(new_cursor + data@.len() <= updated.len());
                push_all(&mut pending, data.as_slice());
                new_cursor = new_cursor + data.len();
            },
        }
        i = i + 1;
    }
    emit_copy(
        &mut tuples,
        &mut diff,
        &mut extra,
        &mut last_copy,
        &mut pending,
        None,
        base,
        updated,
    );
    let mut ctrl_bytes: Vec<u8> = Vec::new();
    let mut k: usize = 0;
    while k < tuples.len()
        invariant
            k <= tuples@.len(),
            ctrl_bytes@ == tuples_bytes(tuples@.subrange(0, k as int)),
        decreases tuples@.len() - k,
    {
        let t = tuples[k];
        push_u64_le(&mut ctrl_bytes, t.add as u64);
        push_u64_le(&mut ctrl_bytes, t.copy as u64);
        push_u64_le(&mut ctrl_bytes, t.seek as u64);
        k = k + 1;
        assert(tuples@.subrange(0, k as int).drop_last() == tuples@.subrange(0, k - 1));
        assert(ctrl_bytes@ =~= tuples_bytes(tuples@.subrange(0, k as int)));
    }
    assert(tuples@.subrange(0, k as int) == tuples@);
    proof {
        lemma_emitted_totals(base@, updated@, segments@);
    }
    let compressed_ctrl = zstd_compress(&ctrl_bytes)?;
    let compressed_diff = zstd_compress(&diff)?;
    let compressed_extra = zstd_compress(&extra)?;
    let mut out: Vec<u8> = Vec::new();
    out.push(0x58u8);
    out.push(0x50u8);
    out.push(0x42u8);
    out.push(0x53u8);
    out.push(STREAM_VERSION);
    push_u64_le(&mut out, compressed_ctrl.len() as u64);
    push_u64_le(&mut out, compressed_diff.len() as u64);
    push_u64_le(&mut out, compressed_extra.len() as u64);
    push_all(&mut out, compressed_ctrl.as_slice());
    push_all(&mut out, compressed_diff.as_slice());
    push_all(&mut out, compressed_extra.as_slice());
    assert(out@ =~= stream_bytes(compressed_ctrl@, compressed_diff@, compressed_extra@));
    Ok(out)
}

/// Every prefix of a fitting segment list fits the prefix of the bytes it
/// covers.
pub proof fn lemma_fits_prefix(base_len: int, t: Seq<u8>, segs: Seq<Segment>, k: int)
    requires
        fits(base_len, t, segs),
        0 <= k <= segs.len(),
    ensures
        covered(segs) == t.len(),
        0 <= covered(segs.subrange(0, k)) <= t.len(),
        fits(base_len, t.subrange(0, covered(segs.subrange(0, k))), segs.subrange(0, k)),
    decreases segs.len(),
{
    if segs.len() == 0 {
        assert(segs.subrange(0, k) == segs);
        assert(t.subrange(0, 0) == t);
    } else {
        let l = seg_len(segs.last());
        let t0 = t.subrange(0, t.len() - l);
        if k == segs.len() {
            lemma_fits_prefix(base_len, t0, segs.drop_last(), k - 1);
            assert(segs.subrange(0, k) == segs);
            assert(t.subrange(0, t.len() as int) == t);
        } else {
            lemma_fits_prefix(base_len, t0, segs.drop_last(), k);
            assert(segs.drop_last().subrange(0, k) == segs.subrange(0, k));
            assert(t0.subrange(0, covered(segs.subrange(0, k))) == t.subrange(
                0,
                covered(segs.subrange(0, k)),
            ));
        }
    }
}

/// Whether `a` is a prefix of `b`.
pub open spec fn is_prefix(a: Seq<u8>, b: Seq<u8>) -> bool {
    a.len() <= b.len() && b.subrange(0, a.len() as int) == a
}

/// What emission has established after a prefix of the segments, relative
/// to the final diff and extra streams `df` and `xf`.
pub open spec fn emit_progress(
    base: Seq<u8>,
    upd: Seq<u8>,
    st: EmitState,
    df: Seq<u8>,
    xf: Seq<u8>,
) -> bool {
    &&& 0 <= st.5 <= upd.len()
    &&& is_prefix(st.1, df)
    &&& is_prefix(st.2, xf)
    &&& match st.3 {
        None => {
            &&& st.0.len() == 0
            &&& st.1.len() == 0
            &&& st.2.len() == 0
            &&& st.4 == upd.subrange(0, st.5)
        },
        Some((pos, len, ns)) => {
            &&& pos + len <= base.len()
            &&& ns + len + st.4.len() == st.5
            &&& st.4 == upd.subrange(ns + len, st.5)
            &&& st.1.len() + st.2.len() == ns
            &&& run(base, st.0, df, xf, upd.len() as int) == Some(
                (st.1.len() as int, st.2.len() as int, pos as int, upd.subrange(0, ns as int)),
            )
        },
    }
}

/// `a + b - b` is `a`, modulo 256.
pub proof fn lemma_byte_add_sub(a: u8, b: u8)
    ensures
        byte_add(b, byte_sub(a, b)) == a,
{
}

/// Flushing runs: the tuple it closes rebuilds the new bundle up to the
/// offset reached and leaves the base positioned for the next copy.
pub proof fn lemma_flush_runs(
    base: Seq<u8>,
    upd: Seq<u8>,
    st: EmitState,
    next: Option<usize>,
    df: Seq<u8>,
    xf: Seq<u8>,
)
    requires
        base.len() <= i64::MAX,
        upd.len() <= i64::MAX,
        emit_progress(base, upd, st, df, xf),
        next matches Some(p) ==> p <= base.len(),
        is_prefix(flush(base, upd, st, next).1, df),
        is_prefix(flush(base, upd, st, next).2, xf),
    ensures
        ({
            let f = flush(base, upd, st, next);
            let bpos: int = match next {
                Some(p) => p as int,
                None => match st.3 {
                    Some((pos, len, ns)) => pos as int,
                    None => 0,
                },
            };
            &&& run(base, f.0, df, xf, upd.len() as int) == Some(
                (f.1.len() as int, f.2.len() as int, bpos, upd.subrange(0, st.5)),
            )
            &&& f.0.len() <= st.0.len() + 1
            &&& f.1.len() + f.2.len() == st.5
            &&& f.3 is None
            &&& f.4.len() == 0
            &&& f.5 == st.5
        }),
{
    let f = flush(base, upd, st, next);
    let n = upd.len() as int;
    match st.3 {
        None => {
            assert(run(base, st.0, df, xf, n) == Some((0int, 0int, 0int, Seq::<u8>::empty())));
            if f.0.len() > st.0.len() {
                let t = f.0.last();
                assert(f.0.drop_last() == st.0);
                let s0: ReplayState = (0int, 0int, 0int, Seq::<u8>::empty());
                assert(step_ok(base, df, xf, n, s0, t));
                assert(added(base, df, 0, 0, 0) =~= Seq::<u8>::empty());
                assert(xf.subrange(0, st.4.len() as int) == st.4);
                assert(step(base, df, xf, s0, t).3 =~= upd.subrange(0, st.5));
            } else {
                assert(st.4.len() == 0);
                assert(upd.subrange(0, st.5) =~= Seq::<u8>::empty());
            }
        },
        Some((pos, len, ns)) => {
            let t = f.0.last();
            assert(f.0.drop_last() == st.0);
            let s: ReplayState = (
                st.1.len() as int,
                st.2.len() as int,
                pos as int,
                upd.subrange(0, ns as int),
            );
            let chunk = Seq::new(len as nat, |i: int| byte_sub(upd[ns + i], base[pos + i]));
            assert(f.1 == st.1 + chunk);
            assert(step_ok(base, df, xf, n, s, t));
            assert forall|j: int| 0 <= j < len implies #[trigger] df[st.1.len() + j] == chunk[j] by {
                assert(df.subrange(0, f.1.len() as int)[st.1.len() + j] == f.1[st.1.len() + j]);
            }
            let a = added(base, df, pos as int, st.1.len() as int, len as int);
            assert forall|j: int| 0 <= j < len implies #[trigger] a[j] == upd[ns + j] by {
                lemma_byte_add_sub(upd[ns + j], base[pos + j]);
            }
            assert(f.2 == st.2 + st.4);
            assert forall|j: int| 0 <= j < st.4.len() implies #[trigger] xf[st.2.len() + j]
                == st.4[j] by {
                assert(xf.subrange(0, f.2.len() as int)[st.2.len() + j] == f.2[st.2.len() + j]);
            }
            let xa = st.2.len() as int;
            let xs = xf.subrange(xa, xa + st.4.len());
            assert forall|j: int| 0 <= j < st.4.len() implies xs[j] == st.4[j] by {
                assert(xs[j] == xf[xa + j]);
            }
            assert(xs =~= st.4);
            assert(step(base, df, xf, s, t).3 =~= upd.subrange(0, st.5));
        },
    }
}

/// Segment `k` of a fitting list covers the bytes after the first `k`.
pub proof fn lemma_fits_segment(base_len: int, t: Seq<u8>, segs: Seq<Segment>, k: int)
    requires
        fits(base_len, t, segs),
        0 <= k < segs.len(),
    ensures
        covered(segs.subrange(0, k + 1)) == covered(segs.subrange(0, k)) + seg_len(segs[k]),
        covered(segs.subrange(0, k + 1)) <= t.len(),
        match segs[k] {
            Segment::Copy { pos, len } => len > 0 && pos + len <= base_len,
            Segment::Extra(d) => d@.len() > 0 && d@ == t.subrange(
                covered(segs.subrange(0, k)),
                covered(segs.subrange(0, k + 1)),
            ),
        },
{
    lemma_fits_prefix(base_len, t, segs, k + 1);
    let p = segs.subrange(0, k + 1);
    assert(p.drop_last() == segs.subrange(0, k));
    assert(p.last() == segs[k]);
    let c1 = covered(p);
    let tp = t.subrange(0, c1);
    if let Segment::Extra(d) = segs[k] {
        assert(tp.subrange(tp.len() - seg_len(segs[k]), tp.len() as int) == t.subrange(
            covered(segs.subrange(0, k)),
            c1,
        ));
    }
}

/// Emission after the first `k` segments has made the progress that
/// `emit_progress` describes, relative to the final streams.
pub proof fn lemma_emit_progress(base: Seq<u8>, upd: Seq<u8>, segs: Seq<Segment>, k: int)
    requires
        base.len() <= i64::MAX,
        upd.len() <= i64::MAX,
        upd.len() <= usize::MAX,
        fits(base.len() as int, upd, segs),
        0 <= k <= segs.len(),
    ensures
        emit_progress(
            base,
            upd,
            emit_prefix(base, upd, segs, k),
            emitted(base, upd, segs).1,
            emitted(base, upd, segs).2,
        ),
        emit_prefix(base, upd, segs, k).5 == covered(segs.subrange(0, k)),
        emit_prefix(base, upd, segs, k).0.len() <= copies(segs.subrange(0, k)),
        emit_prefix(base, upd, segs, k).3 matches Some((pos, len, ns)) ==> pos <= base.len(),
    decreases k,
{
    let e = emitted(base, upd, segs);
    lemma_fits_prefix(base.len() as int, upd, segs, k);
    if k == 0 {
        assert(segs.subrange(0, 0).len() == 0);
        assert(upd.subrange(0, 0) =~= Seq::<u8>::empty());
        assert(e.1.subrange(0, 0) =~= Seq::<u8>::empty());
        assert(e.2.subrange(0, 0) =~= Seq::<u8>::empty());
    } else {
        lemma_emit_progress(base, upd, segs, k - 1);
        lemma_fits_segment(base.len() as int, upd, segs, k - 1);
        lemma_emit_streams_grow(base, upd, segs, k - 1);
        let st = emit_prefix(base, upd, segs, k - 1);
        let p = segs.subrange(0, k);
        assert(p.drop_last() == segs.subrange(0, k - 1));
        assert(p.last() == segs[k - 1]);
        match segs[k - 1] {
            Segment::Copy { pos, len } => {
                lemma_flush_runs(base, upd, st, Some(pos), e.1, e.2);
                assert(upd.subrange(st.5 + len, st.5 + len) =~= Seq::<u8>::empty());
                assert(emit_progress(base, upd, emit_prefix(base, upd, segs, k), e.1, e.2));
            },
            Segment::Extra(d) => {
                match st.3 {
                    None => {
                        assert(st.4 + d@ =~= upd.subrange(0, st.5 + d@.len()));
                    },
                    Some((pos, len, ns)) => {
                        assert(st.4 + d@ =~= upd.subrange(ns + len, st.5 + d@.len()));
                    },
                }
                assert(emit_progress(base, upd, emit_prefix(base, upd, segs, k), e.1, e.2));
            },
        }
    }
}

/// The streams only grow: after `k` segments they are prefixes of the
/// final ones.
pub proof fn lemma_emit_streams_grow(base: Seq<u8>, upd: Seq<u8>, segs: Seq<Segment>, k: int)
    requires
        0 <= k <= segs.len(),
    ensures
        ({
            let e = emitted(base, upd, segs);
            let st = emit_prefix(base, upd, segs, k);
            let f = flush(base, upd, st, if k < segs.len() {
                match segs[k] {
                    Segment::Copy { pos, len } => Some(pos),
                    Segment::Extra(_) => None,
                }
            } else {
                None
            });
            &&& is_prefix(st.1, e.1)
            &&& is_prefix(st.2, e.2)
            &&& (k == segs.len() || segs[k] is Copy) ==> is_prefix(f.1, e.1) && is_prefix(f.2, e.2)
        }),
    decreases segs.len() - k,
{
    let e = emitted(base, upd, segs);
    let st = emit_prefix(base, upd, segs, k);
    if k == segs.len() {
        assert(e.1.subrange(0, e.1.len() as int) == e.1);
        assert(e.2.subrange(0, e.2.len() as int) == e.2);
        let f = flush(base, upd, st, None);
        assert(f.1.subrange(0, st.1.len() as int) =~= st.1);
        assert(f.2.subrange(0, st.2.len() as int) =~= st.2);
    } else {
        lemma_emit_streams_grow(base, upd, segs, k + 1);
        let nx = emit_prefix(base, upd, segs, k + 1);
        assert(nx == advance(base, upd, st, segs[k]));
        match segs[k] {
            Segment::Copy { pos, len } => {
                let f = flush(base, upd, st, Some(pos));
                assert(f.1.subrange(0, st.1.len() as int) =~= st.1);
                assert(f.2.subrange(0, st.2.len() as int) =~= st.2);
                assert(e.1.subrange(0, st.1.len() as int) =~= e.1.subrange(
                    0,
                    f.1.len() as int,
                ).subrange(0, st.1.len() as int));
                assert(e.2.subrange(0, st.2.len() as int) =~= e.2.subrange(
                    0,
                    f.2.len() as int,
                ).subrange(0, st.2.len() as int));
            },
            Segment::Extra(_) => {
            },
        }
    }
}

/// A fitting segment list has no more copies than the bytes it covers.
pub proof fn lemma_copies_bounded(base_len: int, t: Seq<u8>, segs: Seq<Segment>)
    requires
        fits(base_len, t, segs),
    ensures
        0 <= copies(segs) <= t.len(),
    decreases segs.len(),
{
    if segs.len() > 0 {
        let l = seg_len(segs.last());
        lemma_copies_bounded(base_len, t.subrange(0, t.len() - l), segs.drop_last());
    }
}

/// Replaying the streams that encode a fitting segment list rebuilds the
/// new bundle, with at most one tuple more than there are copies and with
/// diff and extra streams that together hold as many bytes as the bundle.
pub proof fn lemma_emitted_replays(base: Seq<u8>, upd: Seq<u8>, segs: Seq<Segment>)
    requires
        base.len() <= i64::MAX,
        upd.len() <= i64::MAX,
        upd.len() <= usize::MAX,
        fits(base.len() as int, upd, segs),
    ensures
        ({
            let e = emitted(base, upd, segs);
            &&& replay(base, e.0, e.1, e.2, upd.len() as int) == Some(upd)
            &&& e.0.len() <= upd.len() + 1
            &&& e.1.len() + e.2.len() == upd.len()
        }),
{
    let k = segs.len() as int;
    let e = emitted(base, upd, segs);
    lemma_emit_progress(base, upd, segs, k);
    lemma_emit_streams_grow(base, upd, segs, k);
    lemma_fits_prefix(base.len() as int, upd, segs, k);
    lemma_copies_bounded(base.len() as int, upd, segs);
    assert(segs.subrange(0, k) == segs);
    let st = emit_prefix(base, upd, segs, k);
    lemma_flush_runs(base, upd, st, None, e.1, e.2);
    assert(upd.subrange(0, upd.len() as int) == upd);
}

/// Decoding the encoding of a tuple sequence gives it back.
#[verifier::rlimit(50)]
pub proof fn lemma_tuples_round_trip(tuples: Seq<ControlTuple>)
    ensures
        tuples_bytes(tuples).len() == 24 * tuples.len(),
        decode_tuples(tuples_bytes(tuples)) == tuples,
    decreases tuples.len(),
{
    if tuples.len() > 0 {
        let init = tuples.drop_last();
        let t = tuples.last();
        lemma_tuples_round_trip(init);
        let b0 = tuples_bytes(init);
        let b = tuples_bytes(tuples);
        let n = init.len() as int;
        assert(b.len() == 24 * tuples.len());
        assert forall|i: int| 0 <= i < tuples.len() implies #[trigger] tuple_at(b, i)
            == tuples[i] by {
            if i < n {
                assert(b.subrange(24 * i, 24 * i + 24) == b0.subrange(24 * i, 24 * i + 24));
                assert(b[24 * i] == b0[24 * i]);
                assert forall|j: int| 0 <= j < 24 implies #[trigger] b[24 * i + j] == b0[24 * i
                    + j] by {
                    assert(b[24 * i + j] == b0[24 * i + j]);
                }
                assert(tuple_at(b0, i) == init[i]);
            } else {
                let off = 24 * n;
                assert(b.subrange(off, off + 8) =~= le_bytes(t.add as u64));
                assert(b.subrange(off + 8, off + 16) =~= le_bytes(t.copy as u64));
                assert(b.subrange(off + 16, off + 24) =~= le_bytes(t.seek as u64));
                lemma_le_round_trip(t.add as u64, b, off);
                lemma_le_round_trip(t.copy as u64, b, off + 8);
                lemma_le_round_trip(t.seek as u64, b, off + 16);
                let (a, c, sk) = (t.add, t.copy, t.seek);
                assert((a as u64) as i64 == a) by (bit_vector);
                assert((c as u64) as i64 == c) by (bit_vector);
                assert((sk as u64) as i64 == sk) by (bit_vector);
            }
        }
        assert(decode_tuples(b) =~= tuples);
    }
}

/// Whether `payload` is a control stream that rebuilds `upd` from `base`:
/// the packed encoding of tuples, diff and extra streams that replay to
/// `upd` and decode within the caps that `upd.len()` sets.
pub open spec fn control_payload(base: Seq<u8>, upd: Seq<u8>, payload: Seq<u8>) -> bool {
    exists|tuples: Seq<ControlTuple>, diff: Seq<u8>, extra: Seq<u8>|
        #![trigger packed(tuples_bytes(tuples), diff, extra)]
        {
            &&& payload == packed(tuples_bytes(tuples), diff, extra)
            &&& packable(tuples_bytes(tuples), diff, extra, upd.len() as u64)
            &&& replay(base, tuples, diff, extra, upd.len() as int) == Some(upd)
        }
}

/// Whether `v` is what replaying the decoded streams of `payload` over
/// `base` rebuilds.
pub open spec fn replayed_from(base: Seq<u8>, payload: Seq<u8>, expected: u64, v: Seq<u8>) -> bool {
    decoded(payload, expected) matches Some((t, d, x)) && replay(base, t, d, x, expected as int)
        == Some(v)
}

/// The payload that `serialize_segments` builds from a fitting segment list
/// rebuilds the new bundle, as long as the decoder's caps are valid
/// allocation sizes.
pub proof fn lemma_serialized_payload(
    base: Seq<u8>,
    upd: Seq<u8>,
    segs: Seq<Segment>,
    out: Seq<u8>,
)
    requires
        base.len() <= i64::MAX,
        upd.len() <= i64::MAX,
        upd.len() <= usize::MAX,
        48 * upd.len() + 192 <= isize::MAX,
        fits(base.len() as int, upd, segs),
        ({
            let e = emitted(base, upd, segs);
            &&& out == packed(tuples_bytes(e.0), e.1, e.2)
            &&& zstd_frame(tuples_bytes(e.0), ZSTD_LEVEL).len() > 0
            &&& zstd_frame(e.1, ZSTD_LEVEL).len() > 0
            &&& zstd_frame(e.2, ZSTD_LEVEL).len() > 0
        }),
    ensures
        control_payload(base, upd, out),
{
    let e = emitted(base, upd, segs);
    lemma_emitted_replays(base, upd, segs);
    lemma_tuples_round_trip(e.0);
    let c = tuples_bytes(e.0);
    assert(c.len() % 24 == 0) by (nonlinear_arith)
        requires
            c.len() == 24 * e.0.len(),
    ;
    assert(packable(c, e.1, e.2, upd.len() as u64));
}

/// Replaying `payload` with `expected_new_size` bytes: the decoded streams
/// must replay, every error is `CorruptPatch`, and a control stream that
/// rebuilds a bundle of that size (see `control_payload`) rebuilds exactly
/// it.
pub open spec fn control_apply_result(
    base: Seq<u8>,
    payload: Seq<u8>,
    expected_new_size: u64,
    res: Result<Vec<u8>>,
) -> bool {
    &&& res matches Ok(v) ==> replayed_from(base, payload, expected_new_size, v@)
    &&& res matches Err(e) ==> e is CorruptPatch
    &&& !stream_header_ok(payload) ==> res is Err
    &&& forall|u: Seq<u8>|
        #[trigger] control_payload(base, u, payload) && u.len() == expected_new_size ==> (res matches Ok(
            v,
        ) && v@ == u)
}

/// Decodes and replays a control stream payload.
pub fn apply_payload(base: &[u8], payload: &[u8], expected_new_size: u64) -> (res: Result<Vec<u8>>)
    ensures
        control_apply_result(base@, payload@, expected_new_size, res),
{
    let (tuples, diff, extra) = decode_control_stream(payload, expected_new_size)?;
    let res = apply_control_stream(base, &tuples, &diff, &extra, expected_new_size);
    assert forall|u: Seq<u8>|
        #[trigger] control_payload(base@, u, payload@) && u.len()
            == expected_new_size implies (res matches Ok(v) && v@ == u) by {
        let (t, d, x) = choose|t: Seq<ControlTuple>, d: Seq<u8>, x: Seq<u8>|
            #![trigger packed(tuples_bytes(t), d, x)]
            {
                &&& payload@ == packed(tuples_bytes(t), d, x)
                &&& packable(tuples_bytes(t), d, x, u.len() as u64)
                &&& replay(base@, t, d, x, u.len() as int) == Some(u)
            };
        lemma_tuples_round_trip(t);
        assert(packed(tuples_bytes(t), d, x) == payload@);
    }
    res
}

/// The wire format the decoder reads. A control stream starts with the
/// bytes "XPBS" and version 1, then the compressed lengths of the control,
/// diff and extra streams as little-endian 64-bit numbers at offsets 5, 13
/// and 21; the three compressed streams follow the 29-byte header in that
/// order. Each 24-byte record of the decompressed control stream is one
/// tuple: its add, copy and seek counts as little-endian 64-bit numbers, in
/// that order.
pub proof fn lemma_decoded_wire_format(p: Seq<u8>, max_output: u64)
    requires
        decoded(p, max_output) is Some,
    ensures
        ({
            let (t, d, x) = decoded(p, max_output)->Some_0;
            let l1 = le_u64(p, 5) as int;
            let l2 = le_u64(p, 13) as int;
            let c = inflated(p.subrange(29, 29 + l1));
            &&& p.len() >= 29
            &&& p[0] == 0x58 && p[1] == 0x50 && p[2] == 0x42 && p[3] == 0x53 && p[4] == 1
            &&& 29 + l1 + l2 + le_u64(p, 21) == p.len()
            &&& d == inflated(p.subrange(29 + l1, 29 + l1 + l2))
            &&& x == inflated(p.subrange(29 + l1 + l2, p.len() as int))
            &&& c.len() == 24 * t.len()
            &&& forall|i: int|
                0 <= i < t.len() ==> (#[trigger] t[i]).add == le_u64(c, 24 * i) as i64 && t[i].copy
                    == le_u64(c, 24 * i + 8) as i64 && t[i].seek == le_u64(c, 24 * i + 16) as i64
        }),
{
    let c = inflated(ctrl_part(p));
    assert(p.subrange(0, 4)[0] == p[0] && p.subrange(0, 4)[1] == p[1]);
    assert(p.subrange(0, 4)[2] == p[2] && p.subrange(0, 4)[3] == p[3]);
    assert(c.len() == 24 * (c.len() / 24)) by (nonlinear_arith)
        requires
            c.len() % 24 == 0,
    ;
}

/// The encoding of tuples, record by record: the record of tuple `i` is the
/// 24 bytes at `24 * i`, its add, copy and seek counts as little-endian
/// 64-bit numbers, in that order.
pub proof fn lemma_tuples_wire_format(ts: Seq<ControlTuple>)
    ensures
        tuples_bytes(ts).len() == 24 * ts.len(),
        forall|i: int|
            0 <= i < ts.len() ==> {
                &&& tuples_bytes(ts).subrange(24 * i, 24 * i + 8) == le_bytes(
                    (#[trigger] ts[i]).add as u64,
                )
                &&& tuples_bytes(ts).subrange(24 * i + 8, 24 * i + 16) == le_bytes(ts[i].copy as u64)
                &&& tuples_bytes(ts).subrange(24 * i + 16, 24 * i + 24) == le_bytes(ts[i].seek as u64)
            },
    decreases ts.len(),
{
    if ts.len() > 0 {
        let init = ts.drop_last();
        lemma_tuples_wire_format(init);
        let b0 = tuples_bytes(init);
        let b = tuples_bytes(ts);
        let n = init.len() as int;
        assert forall|i: int| 0 <= i < ts.len() implies {
            &&& b.subrange(24 * i, 24 * i + 8) == le_bytes((#[trigger] ts[i]).add as u64)
            &&& b.subrange(24 * i + 8, 24 * i + 16) == le_bytes(ts[i].copy as u64)
            &&& b.subrange(24 * i + 16, 24 * i + 24) == le_bytes(ts[i].seek as u64)
        } by {
            if i < n {
                assert(ts[i] == init[i]);
                assert(b.subrange(24 * i, 24 * i + 8) =~= b0.subrange(24 * i, 24 * i + 8));
                assert(b.subrange(24 * i + 8, 24 * i + 16) =~= b0.subrange(24 * i + 8, 24 * i + 16));
                assert(b.subrange(24 * i + 16, 24 * i + 24) =~= b0.subrange(
                    24 * i + 16,
                    24 * i + 24,
                ));
            } else {
                assert(b.subrange(24 * i, 24 * i + 8) =~= le_bytes(ts[i].add as u64));
                assert(b.subrange(24 * i + 8, 24 * i + 16) =~= le_bytes(ts[i].copy as u64));
                assert(b.subrange(24 * i + 16, 24 * i + 24) =~= le_bytes(ts[i].seek as u64));
            }
        }
    }
}

/// The per-byte deltas of the copied regions, in segment order: a copy of
/// `len` bytes from base position `pos` to new-bundle offset `at`
/// contributes `upd[at + i] - base[pos + i]` (modulo 256) for each `i`.
pub open spec fn copy_deltas(base: Seq<u8>, upd: Seq<u8>, segs: Seq<Segment>) -> Seq<u8>
    decreases segs.len(),
{
    if segs.len() == 0 {
        Seq::<u8>::empty()
    } else {
        let prev = copy_deltas(base, upd, segs.drop_last());
        let at = covered(segs.drop_last());
        match segs.last() {
            Segment::Copy { pos, len } => prev + Seq::new(
                len as nat,
                |i: int| byte_sub(upd[at + i], base[pos + i]),
            ),
            Segment::Extra(_) => prev,
        }
    }
}

/// The unmatched bytes of the segments, in order.
pub open spec fn literals(segs: Seq<Segment>) -> Seq<u8>
    decreases segs.len(),
{
    if segs.len() == 0 {
        Seq::<u8>::empty()
    } else {
        match segs.last() {
            Segment::Copy { .. } => literals(segs.drop_last()),
            Segment::Extra(d) => literals(segs.drop_last()) + d@,
        }
    }
}

/// The deltas of the copy whose tuple is still open.
spec fn open_deltas(base: Seq<u8>, upd: Seq<u8>, st: EmitState) -> Seq<u8> {
    match st.3 {
        None => Seq::<u8>::empty(),
        Some((pos, len, ns)) => Seq::new(
            len as nat,
            |i: int| byte_sub(upd[ns + i], base[pos + i]),
        ),
    }
}

/// After `k` segments the diff stream and the open copy hold the deltas of
/// the copies so far, and the extra stream and pending bytes hold their
/// unmatched bytes.
proof fn lemma_emit_streams(base: Seq<u8>, upd: Seq<u8>, segs: Seq<Segment>, k: int)
    requires
        0 <= k <= segs.len(),
        covered(segs) <= usize::MAX,
    ensures
        ({
            let st = emit_prefix(base, upd, segs, k);
            let pre = segs.subrange(0, k);
            &&& st.5 == covered(pre)
            &&& st.1 + open_deltas(base, upd, st) == copy_deltas(base, upd, pre)
            &&& st.2 + st.4 == literals(pre)
        }),
    decreases k,
{
    let pre = segs.subrange(0, k);
    if k == 0 {
        assert(pre.len() == 0);
        assert(Seq::<u8>::empty() + Seq::<u8>::empty() =~= Seq::<u8>::empty());
    } else {
        lemma_emit_streams(base, upd, segs, k - 1);
        lemma_covered_prefix(segs, k - 1);
        let st = emit_prefix(base, upd, segs, k - 1);
        let prev = segs.subrange(0, k - 1);
        assert(pre.drop_last() =~= prev);
        assert(pre.last() == segs[k - 1]);
        match segs[k - 1] {
            Segment::Copy { pos, len } => {
                let f = flush(base, upd, st, Some(pos));
                assert(f.1 == st.1 + open_deltas(base, upd, st)) by {
                    if st.3 is None {
                        assert(st.1 + Seq::<u8>::empty() =~= st.1);
                    }
                }
                assert(f.2 == st.2 + st.4 && f.4 == Seq::<u8>::empty()) by {
                    if st.3 is None && !(st.4.len() > 0 || (if pos > 0 {
                        pos as i64
                    } else {
                        0i64
                    }) != 0) {
                        assert(st.4 =~= Seq::<u8>::empty());
                        assert(st.2 + st.4 =~= st.2);
                    }
                }
                let st2 = emit_prefix(base, upd, segs, k);
                assert(st2.3 == Some((pos, len, st.5 as usize)));
                assert((st.5 as usize) as int == covered(prev));
                assert(open_deltas(base, upd, st2) =~= Seq::new(
                    len as nat,
                    |i: int| byte_sub(upd[covered(prev) + i], base[pos + i]),
                ));
                assert(st2.1 + open_deltas(base, upd, st2) =~= copy_deltas(base, upd, pre));
                assert(st2.2 + st2.4 =~= literals(pre));
            },
            Segment::Extra(d) => {
                let st2 = emit_prefix(base, upd, segs, k);
                assert(st2.2 + st2.4 =~= literals(pre));
            },
        }
    }
}

/// The diff stream of the encoding holds the copy deltas and the extra
/// stream the unmatched bytes.
pub proof fn lemma_emitted_streams(base: Seq<u8>, upd: Seq<u8>, segs: Seq<Segment>)
    requires
        covered(segs) <= usize::MAX,
    ensures
        emitted(base, upd, segs).1 == copy_deltas(base, upd, segs),
        emitted(base, upd, segs).2 == literals(segs),
{
    let n = segs.len() as int;
    lemma_emit_streams(base, upd, segs, n);
    assert(segs.subrange(0, n) =~= segs);
    let st = emit_prefix(base, upd, segs, n);
    if st.3 is None {
        assert(st.1 + Seq::<u8>::empty() =~= st.1);
        if !(st.4.len() > 0) {
            assert(st.4 =~= Seq::<u8>::empty());
            assert(st.2 + st.4 =~= st.2);
        }
    }
}

/// The wire format of the control stream that encodes `segs`: after the
/// "XPBS" magic, version 1 and the three compressed lengths at offsets 5,
/// 13 and 21, come the compressed control records, then the compressed
/// per-byte deltas of the copied regions, then the compressed unmatched
/// bytes.
pub proof fn lemma_serialized_wire_format(base: Seq<u8>, upd: Seq<u8>, segs: Seq<Segment>)
    requires
        covered(segs) <= usize::MAX,
        serialized(base, upd, segs).len() <= u64::MAX,
    ensures
        ({
            let p = serialized(base, upd, segs);
            let l1 = le_u64(p, 5) as int;
            let l2 = le_u64(p, 13) as int;
            &&& p[0] == 0x58 && p[1] == 0x50 && p[2] == 0x42 && p[3] == 0x53 && p[4] == 1
            &&& p.subrange(29, 29 + l1) == zstd_frame(
                tuples_bytes(emitted(base, upd, segs).0),
                ZSTD_LEVEL,
            )
            &&& p.subrange(29 + l1, 29 + l1 + l2) == zstd_frame(
                copy_deltas(base, upd, segs),
                ZSTD_LEVEL,
            )
            &&& p.subrange(29 + l1 + l2, p.len() as int) == zstd_frame(literals(segs), ZSTD_LEVEL)
        }),
{
    let e = emitted(base, upd, segs);
    lemma_emitted_streams(base, upd, segs);
    let c = zstd_frame(tuples_bytes(e.0), ZSTD_LEVEL);
    let d = zstd_frame(e.1, ZSTD_LEVEL);
    let x = zstd_frame(e.2, ZSTD_LEVEL);
    let p = stream_bytes(c, d, x);
    lemma_stream_fields(c, d, x);
    assert(p.subrange(0, 4) =~= stream_magic());
    assert(p.subrange(0, 4)[0] == p[0] && p.subrange(0, 4)[1] == p[1]);
    assert(p.subrange(0, 4)[2] == p[2] && p.subrange(0, 4)[3] == p[3]);
}

} // verus!
