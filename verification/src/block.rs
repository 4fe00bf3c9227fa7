//! The block codec is an xdelta-style greedy matcher: every position of the
//! base is fingerprinted with a 16-byte window, the new bundle walks those
//! fingerprints, and matches may extend backwards into unmatched bytes. The
//! index builder is producer-only; replay needs nothing but the control
//! stream.
use vstd::prelude::*;
use vstd::relations::{sorted_by, total_ordering};
use vstd::seq_lib::{lemma_sorted_unique, to_multiset_contains};
use vstd::slice::slice_subrange;

use crate::bsdiff::{
    common_prefix, is_lcp, lcp, lemma_is_lcp, lemma_lcp_len, suffix, view_len, views_covered,
};
use crate::control::{
    apply_payload, control_apply_result, control_payload, lemma_extra_describes,
    lemma_emitted_views, lemma_finish_fits, lemma_fits_in_range, lemma_match_describes, lemma_serialized_payload,
    lemma_views_push, seg_view, seg_views, serialize_segments, serialized, SegView, Segment,
    SegmentBuilder,
};
use crate::error::{codec_failure, Result};

verus! {

/// Bytes per fingerprinted window.
pub const WINDOW: usize = 16;

/// Shortest match worth a copy region.
pub const MIN_MATCH: usize = 24;

/// Most candidate positions tried per fingerprint.
pub const MAX_CANDIDATES: usize = 8;

/// Largest bundle the block codec accepts.
pub const MAX_INPUT: usize = 0x7fff_ffff;

/// The block codec.
pub struct Block;

/// FNV-1a over `s`.
pub open spec fn fnv1a(s: Seq<u8>) -> u32
    decreases s.len(),
{
    if s.len() == 0 {
        2166136261u32
    } else {
        (((fnv1a(s.drop_last()) ^ (s.last() as u32)) as nat * 16777619nat) % 0x1_0000_0000nat) as u32
    }
}

/// FNV-1a over the match window; collisions are fine because candidates are
/// verified byte by byte before use.
pub fn window_fingerprint(window: &[u8]) -> (h: u32)
    ensures
        h == fnv1a(window@),
{
    let mut hash: u32 = 2166136261;
    let mut i: usize = 0;
    while i < window.len()
        invariant
            i <= window@.len(),
            hash == fnv1a(window@.subrange(0, i as int)),
        decreases window@.len() - i,
    {
        hash = hash ^ (window[i] as u32);
        hash = hash.wrapping_mul(16777619);
        i = i + 1;
        assert(window@.subrange(0, i as int).drop_last() == window@.subrange(0, i - 1));
    }
    assert(window@.subrange(0, i as int) == window@);
    hash
}

/// The tuple order on index entries (fingerprint first, then position).
pub open spec fn entry_le(a: (u32, i32), b: (u32, i32)) -> bool {
    a.0 < b.0 || (a.0 == b.0 && a.1 <= b.1)
}

/// The (fingerprint, position) entry of every window of `base`.
pub open spec fn window_entries(base: Seq<u8>) -> Seq<(u32, i32)> {
    if base.len() < WINDOW {
        Seq::<(u32, i32)>::empty()
    } else {
        Seq::new(
            (base.len() - WINDOW + 1) as nat,
            |i: int| (fnv1a(base.subrange(i, i + WINDOW)), i as i32),
        )
    }
}

/// The index entries of `base` in ascending tuple order.
pub open spec fn sorted_windows(base: Seq<u8>) -> Seq<(u32, i32)> {
    window_entries(base).sort_by(|a: (u32, i32), b: (u32, i32)| entry_le(a, b))
}

/// The tuple order is a total order.
proof fn lemma_entry_le_total()
    ensures
        total_ordering(|a: (u32, i32), b: (u32, i32)| entry_le(a, b)),
{
}

/// Calls `slice::sort_unstable` on the index entries. Trusted, as std
/// documents it: afterwards the same entries (a permutation) are in
/// ascending tuple order, fingerprint first and position second.
#[verifier::external_body]
fn sort_entries(entries: &mut Vec<(u32, i32)>)
    ensures
        final(entries)@.to_multiset() == old(entries)@.to_multiset(),
        forall|i: int, j: int|
            0 <= i < j < final(entries)@.len() ==> entry_le(
                #[trigger] final(entries)@[i],
                #[trigger] final(entries)@[j],
            ),
{
    entries.sort_unstable();
}

/// How many leading entries of `e` have a fingerprint below `fp`: in a
/// sorted index, where the run of `fp` starts.
pub open spec fn below_count(e: Seq<(u32, i32)>, fp: u32) -> int
    decreases e.len(),
{
    if e.len() == 0 {
        0
    } else if e[0].0 < fp {
        1 + below_count(e.drop_first(), fp)
    } else {
        0
    }
}

/// The positions of at most `n` consecutive entries of `e`, from index `k`
/// on, whose fingerprint is `fp`.
pub open spec fn run_at(e: Seq<(u32, i32)>, k: int, fp: u32, n: nat) -> Seq<i32>
    decreases n,
{
    if n == 0 || k < 0 || k >= e.len() || e[k].0 != fp {
        Seq::<i32>::empty()
    } else {
        seq![e[k].1] + run_at(e, k + 1, fp, (n - 1) as nat)
    }
}

/// The candidate positions for `fp` in the index entries `e`: the first
/// `MAX_CANDIDATES` entries of its run.
pub open spec fn run_candidates(e: Seq<(u32, i32)>, fp: u32) -> Seq<i32> {
    run_at(e, below_count(e, fp), fp, MAX_CANDIDATES as nat)
}

/// Where every entry before `start` is below `fp` and the entry at `start`
/// is not, `start` is the count of entries below `fp`.
proof fn lemma_below_count(e: Seq<(u32, i32)>, fp: u32, start: int)
    requires
        0 <= start <= e.len(),
        forall|k: int| 0 <= k < start ==> #[trigger] e[k].0 < fp,
        start < e.len() ==> e[start].0 >= fp,
    ensures
        below_count(e, fp) == start,
    decreases start,
{
    if start > 0 {
        assert(e[0].0 < fp);
        assert forall|k: int| 0 <= k < start - 1 implies #[trigger] e.drop_first()[k].0 < fp by {
            assert(e[k + 1].0 < fp);
        }
        lemma_below_count(e.drop_first(), fp, start - 1);
    }
}

/// Maps window fingerprints to base positions, sorted so equal fingerprints
/// form contiguous runs.
pub struct BlockIndex {
    entries: Vec<(u32, i32)>,
}

impl BlockIndex {
    /// The index entries in order.
    pub closed spec fn entries(&self) -> Seq<(u32, i32)> {
        self.entries@
    }

    /// Whether the entries are in ascending tuple order.
    pub open spec fn sorted(&self) -> bool {
        forall|i: int, j: int|
            0 <= i < j < self.entries().len() ==> entry_le(
                #[trigger] self.entries()[i],
                #[trigger] self.entries()[j],
            )
    }

    /// Whether the entries are sorted and every position starts a window of
    /// a base of `base_len` bytes.
    pub open spec fn wf(&self, base_len: int) -> bool {
        &&& self.sorted()
        &&& forall|i: int|
            0 <= i < self.entries().len() ==> 0 <= #[trigger] self.entries()[i].1 && self.entries()[i].1
                + WINDOW <= base_len
    }

    /// Indexes every window of `base`.
    pub fn build(base: &[u8]) -> (index: Self)
        requires
            base@.len() <= MAX_INPUT,
        ensures
            index.wf(base@.len() as int),
            index.entries() == sorted_windows(base@),
    {
        let mut entries: Vec<(u32, i32)> = Vec::new();
        proof {
            lemma_entry_le_total();
            window_entries(base@).lemma_sort_by_ensures(|a: (u32, i32), b: (u32, i32)| entry_le(a, b));
        }
        if base.len() < WINDOW {
            assert(entries@ =~= window_entries(base@));
            proof {
                lemma_sorted_unique(entries@, sorted_windows(base@), |a: (u32, i32), b: (u32, i32)| entry_le(a, b));
            }
            return BlockIndex { entries };
        }
        let last = base.len() - WINDOW;
        let mut i: usize = 0;
        while i <= last
            invariant
                i <= last + 1,
                last + WINDOW == base@.len(),
                base@.len() <= MAX_INPUT,
                entries@ == window_entries(base@).subrange(0, i as int),
            decreases last + 1 - i,
        {
            let fp = window_fingerprint(slice_subrange(base, i, i + WINDOW));
            entries.push((fp, i as i32));
            i = i + 1;
            assert(entries@ =~= window_entries(base@).subrange(0, i as int));
        }
        assert(window_entries(base@).subrange(0, i as int) == window_entries(base@));
        let ghost unsorted = entries@;
        sort_entries(&mut entries);
        proof {
            assert forall|k: int| 0 <= k < entries@.len() implies 0 <= #[trigger] entries@[k].1
                && entries@[k].1 + WINDOW <= base@.len() by {
                let e = entries@[k];
                to_multiset_contains(entries@, e);
                to_multiset_contains(unsorted, e);
                assert(entries@.contains(e));
                let j = choose|j: int| 0 <= j < unsorted.len() && unsorted[j] == e;
                assert(unsorted[j].1 == j);
            }
            let leq = |a: (u32, i32), b: (u32, i32)| entry_le(a, b);
            assert(sorted_by(entries@, leq));
            lemma_sorted_unique(entries@, sorted_windows(base@), leq);
        }
        BlockIndex { entries }
    }

    /// Up to `MAX_CANDIDATES` base positions whose window has `fingerprint`:
    /// the first entries of its run in the sorted index.
    pub fn candidates(&self, fingerprint: u32) -> (r: Vec<i32>)
        requires
            self.sorted(),
        ensures
            r@ == run_candidates(self.entries(), fingerprint),
            forall|k: int|
                0 <= k < r@.len() ==> #[trigger] self.entries().contains((fingerprint, r@[k])),
    {
        let ghost e = self.entries();
        let mut lo: usize = 0;
        let mut hi: usize = self.entries.len();
        while lo < hi
            invariant
                lo <= hi <= e.len(),
                e == self.entries(),
                e == self.entries@,
                self.sorted(),
                forall|k: int| 0 <= k < lo ==> #[trigger] e[k].0 < fingerprint,
                forall|k: int| hi <= k < e.len() ==> #[trigger] e[k].0 >= fingerprint,
            decreases hi - lo,
        {
            let mid = lo + (hi - lo) / 2;
            let v = self.entries[mid];
            assert(v == e[mid as int]);
            if v.0 < fingerprint {
                assert(forall|k: int| 0 <= k < mid ==> entry_le(#[trigger] e[k], e[mid as int]));
                lo = mid + 1;
            } else {
                assert(forall|k: int| mid < k < e.len() ==> entry_le(e[mid as int], #[trigger] e[k]));
                hi = mid;
            }
        }
        let start = lo;
        proof {
            lemma_below_count(e, fingerprint, start as int);
        }
        let mut r: Vec<i32> = Vec::new();
        let mut k: usize = start;
        while k < self.entries.len() && self.entries[k].0 == fingerprint && r.len() < MAX_CANDIDATES
            invariant
                start <= k <= e.len(),
                e == self.entries(),
                e == self.entries@,
                r@.len() == k - start,
                r@.len() <= MAX_CANDIDATES,
                forall|j: int|
                    start <= j < k ==> #[trigger] e[j].0 == fingerprint && r@[j - start] == e[j].1,
                r@ + run_at(e, k as int, fingerprint, (MAX_CANDIDATES - r@.len()) as nat) == run_at(
                    e,
                    start as int,
                    fingerprint,
                    MAX_CANDIDATES as nat,
                ),
            decreases e.len() - k,
        {
            let ghost before = r@;
            let entry = self.entries[k];
            assert(entry == e[k as int] && entry.0 == fingerprint);
            r.push(entry.1);
            k = k + 1;
            assert forall|j: int| start <= j < k implies #[trigger] e[j].0 == fingerprint && r@[j
                - start] == e[j].1 by {
                if j < k - 1 {
                    assert(r@[j - start] == before[j - start]);
                } else {
                    assert(r@[j - start] == entry.1);
                }
            }
            assert(r@ + run_at(e, k as int, fingerprint, (MAX_CANDIDATES - r@.len()) as nat) =~= before
                + run_at(e, k - 1, fingerprint, (MAX_CANDIDATES - before.len()) as nat));
        }
        assert(r@ + run_at(e, k as int, fingerprint, (MAX_CANDIDATES - r@.len()) as nat) =~= r@);
        assert forall|j: int| 0 <= j < r@.len() implies #[trigger] e.contains((fingerprint, r@[j])) by {
            assert(e[start + j].0 == fingerprint);
            assert(e[start + j] == (fingerprint, r@[j]));
        }
        r
    }
}

/// The longest common prefix with `t` among the candidate positions, and
/// the first candidate attaining it; `(0, 0)` when none shares a byte.
pub open spec fn best_candidate(base: Seq<u8>, t: Seq<u8>, cands: Seq<i32>) -> (int, int)
    decreases cands.len(),
{
    if cands.len() == 0 {
        (0, 0)
    } else {
        let b = best_candidate(base, t, cands.drop_last());
        let p = cands.last() as int;
        let l = lcp(suffix(base, p), t) as int;
        if l > b.0 {
            (l, p)
        } else {
            b
        }
    }
}

/// The best candidate shares at most all of `t`.
pub proof fn lemma_best_bounded(base: Seq<u8>, t: Seq<u8>, cands: Seq<i32>)
    ensures
        0 <= best_candidate(base, t, cands).0 <= t.len(),
    decreases cands.len(),
{
    if cands.len() > 0 {
        lemma_best_bounded(base, t, cands.drop_last());
        lemma_lcp_len(suffix(base, cands.last() as int), t);
    }
}

/// How many bytes a match at base position `pos` for new-bundle offset
/// `scan` extends backwards, counting on from `b` and stopping at `limit`,
/// at the start of the base, or at the first differing byte.
pub open spec fn back_from(
    base: Seq<u8>,
    upd: Seq<u8>,
    pos: int,
    scan: int,
    limit: int,
    b: int,
) -> int
    decreases limit - b,
{
    if b < limit && pos > b && base[pos - b - 1] == upd[scan - b - 1] {
        back_from(base, upd, pos, scan, limit, b + 1)
    } else {
        b
    }
}

/// The greedy scan of the new bundle from offset `scan`, with segments
/// `segs` recorded and the unmatched bytes `tail` pending: at every offset
/// with a full window ahead, the best of the candidates of its fingerprint
/// is copied when it matches at least `MIN_MATCH` bytes, extended backwards
/// over the pending bytes it also matches; any other byte stays pending.
/// The result is the final segments and pending bytes.
pub open spec fn block_scan(
    base: Seq<u8>,
    upd: Seq<u8>,
    scan: int,
    segs: Seq<SegView>,
    tail: Seq<u8>,
) -> (Seq<SegView>, Seq<u8>)
    decreases upd.len() - scan,
{
    if scan < 0 || scan >= upd.len() {
        (segs, tail)
    } else if scan + WINDOW > upd.len() {
        block_scan(base, upd, scan + 1, segs, tail.push(upd[scan]))
    } else {
        let t = upd.subrange(scan, upd.len() as int);
        let fp = fnv1a(upd.subrange(scan, scan + WINDOW));
        let cands = run_candidates(sorted_windows(base), fp);
        let best = best_candidate(base, t, cands);
        if best.0 < MIN_MATCH {
            block_scan(base, upd, scan + 1, segs, tail.push(upd[scan]))
        } else {
            proof {
                lemma_best_bounded(base, t, cands);
            }
            let back = back_from(base, upd, best.1, scan, tail.len() as int, 0);
            let kept = tail.subrange(0, tail.len() - back);
            let recorded = if kept.len() > 0 {
                segs.push(SegView::Extra(kept))
            } else {
                segs
            };
            block_scan(
                base,
                upd,
                scan + best.0,
                recorded.push(SegView::Copy { pos: best.1 - back, len: best.0 + back }),
                Seq::<u8>::empty(),
            )
        }
    }
}

/// The segments of the block codec's greedy parse of `upd` over `base`.
pub open spec fn block_parse(base: Seq<u8>, upd: Seq<u8>) -> Seq<SegView> {
    let r = block_scan(base, upd, 0, Seq::<SegView>::empty(), Seq::<u8>::empty());
    if r.1.len() > 0 {
        r.0.push(SegView::Extra(r.1))
    } else {
        r.0
    }
}

/// Whether `payload` is the block codec's payload of `upd` over `base`: the
/// control stream that encodes its greedy parse.
pub open spec fn block_payload(base: Seq<u8>, upd: Seq<u8>, payload: Seq<u8>) -> bool {
    exists|segs: Seq<Segment>|
        #[trigger] seg_views(segs) == block_parse(base, upd) && payload == serialized(base, upd, segs)
}

/// The block payload of two bundles is unique.
pub proof fn lemma_block_payload_unique(base: Seq<u8>, upd: Seq<u8>, p1: Seq<u8>, p2: Seq<u8>)
    requires
        block_payload(base, upd, p1),
        block_payload(base, upd, p2),
    ensures
        p1 == p2,
{
    let s1 = choose|segs: Seq<Segment>|
        #[trigger] seg_views(segs) == block_parse(base, upd) && p1 == serialized(base, upd, segs);
    let s2 = choose|segs: Seq<Segment>|
        #[trigger] seg_views(segs) == block_parse(base, upd) && p2 == serialized(base, upd, segs);
    lemma_emitted_views(base, upd, s1, s2);
}

/// Shrinking the tail by `n` of its bytes keeps the builder describing the
/// bytes read, minus those `n`.
pub proof fn lemma_reclaim_describes(
    old_b: SegmentBuilder,
    new_b: SegmentBuilder,
    base_len: int,
    t: Seq<u8>,
    n: int,
)
    requires
        old_b.describes(base_len, t),
        0 <= n <= old_b.tail().len(),
        new_b.segs() == old_b.segs(),
        new_b.tail() == old_b.tail().subrange(0, old_b.tail().len() - n),
    ensures
        new_b.describes(base_len, t.subrange(0, t.len() - n)),
{
    let k = t.len() - old_b.tail().len();
    let u = t.subrange(0, t.len() - n);
    assert(u.subrange(0, k) == t.subrange(0, k));
    assert(new_b.tail() =~= u.subrange(k, u.len() as int));
}

/// Counting on from `b <= limit`, the backward extension stops within
/// `limit`, and where it stops short of `limit` the base start is reached
/// or the next bytes back differ.
proof fn lemma_back_from_stops(
    base: Seq<u8>,
    upd: Seq<u8>,
    pos: int,
    scan: int,
    limit: int,
    b: int,
)
    requires
        0 <= b <= limit,
    ensures
        ({
            let r = back_from(base, upd, pos, scan, limit, b);
            &&& b <= r <= limit
            &&& r < limit ==> pos <= r || base[pos - r - 1] != upd[scan - r - 1]
        }),
    decreases limit - b,
{
    if b < limit && pos > b && base[pos - b - 1] == upd[scan - b - 1] {
        lemma_back_from_stops(base, upd, pos, scan, limit, b + 1);
    }
}

/// Whether a copy `b` right after an unmatched run `a`, starting at
/// new-bundle offset `at`, cannot grow backwards: it starts at base
/// position `0`, or the byte before it in the base differs from the last
/// unmatched byte.
pub open spec fn not_extendable(base: Seq<u8>, upd: Seq<u8>, a: SegView, b: SegView, at: int) -> bool {
    (a is Extra && b is Copy) ==> b->pos <= 0 || base[b->pos - 1] != upd[at - 1]
}

/// Whether no copy of `v` right after an unmatched run can grow backwards.
spec fn views_not_extendable(base: Seq<u8>, upd: Seq<u8>, v: Seq<SegView>) -> bool
    decreases v.len(),
{
    if v.len() < 2 {
        true
    } else {
        views_not_extendable(base, upd, v.drop_last()) && not_extendable(
            base,
            upd,
            v[v.len() - 2],
            v.last(),
            views_covered(v.drop_last()),
        )
    }
}

/// Whether every copy of `v` is at least `MIN_MATCH` bytes long.
pub open spec fn copies_long(v: Seq<SegView>) -> bool {
    forall|k: int| 0 <= k < v.len() && (#[trigger] v[k]) is Copy ==> v[k]->len >= MIN_MATCH
}

/// The state of the block scan: the recorded views cover the bytes before
/// the pending ones, end in a copy, and none can grow backwards.
spec fn block_scan_inv(base: Seq<u8>, upd: Seq<u8>, scan: int, segs: Seq<SegView>, tail: Seq<u8>) -> bool {
    &&& views_covered(segs) + tail.len() == scan
    &&& copies_long(segs)
    &&& segs.len() > 0 ==> segs.last() is Copy
    &&& views_not_extendable(base, upd, segs)
}

/// The block scan keeps its state to the end.
proof fn lemma_block_scan_inv(
    base: Seq<u8>,
    upd: Seq<u8>,
    scan: int,
    segs: Seq<SegView>,
    tail: Seq<u8>,
)
    requires
        0 <= scan <= upd.len(),
        block_scan_inv(base, upd, scan, segs, tail),
    ensures
        ({
            let r = block_scan(base, upd, scan, segs, tail);
            &&& views_not_extendable(base, upd, r.0)
            &&& r.0.len() > 0 ==> r.0.last() is Copy
            &&& copies_long(r.0)
        }),
    decreases upd.len() - scan,
{
    if scan >= upd.len() {
    } else if scan + WINDOW > upd.len() {
        lemma_block_scan_inv(base, upd, scan + 1, segs, tail.push(upd[scan]));
    } else {
        let t = upd.subrange(scan, upd.len() as int);
        let fp = fnv1a(upd.subrange(scan, scan + WINDOW));
        let cands = run_candidates(sorted_windows(base), fp);
        let best = best_candidate(base, t, cands);
        if best.0 < MIN_MATCH {
            lemma_block_scan_inv(base, upd, scan + 1, segs, tail.push(upd[scan]));
        } else {
            lemma_best_bounded(base, t, cands);
            let back = back_from(base, upd, best.1, scan, tail.len() as int, 0);
            lemma_back_from_stops(base, upd, best.1, scan, tail.len() as int, 0);
            let kept = tail.subrange(0, tail.len() - back);
            let recorded = if kept.len() > 0 {
                segs.push(SegView::Extra(kept))
            } else {
                segs
            };
            let c = SegView::Copy { pos: best.1 - back, len: best.0 + back };
            let v = recorded.push(c);
            if kept.len() > 0 {
                assert(recorded.drop_last() == segs);
                if segs.len() > 0 {
                    assert(recorded[recorded.len() - 2] == segs.last());
                }
                assert(views_not_extendable(base, upd, recorded));
                assert(views_covered(recorded) == scan - back);
            } else {
                if segs.len() > 0 {
                    assert(recorded.last() is Copy);
                }
            }
            assert(v.drop_last() == recorded);
            if v.len() >= 2 {
                assert(v[v.len() - 2] == recorded.last());
            }
            assert(views_not_extendable(base, upd, v));
            assert(views_covered(v) == scan + best.0);
            assert forall|k: int| 0 <= k < v.len() && (#[trigger] v[k]) is Copy implies v[k]->len
                >= MIN_MATCH by {
                if k < segs.len() {
                    assert(v[k] == segs[k]);
                }
            }
            lemma_block_scan_inv(base, upd, scan + best.0, v, Seq::<u8>::empty());
        }
    }
}

/// Every pair of neighbouring views of a list in which no copy can grow
/// backwards keeps that property at its offset.
proof fn lemma_not_extendable_each(base: Seq<u8>, upd: Seq<u8>, v: Seq<SegView>)
    requires
        views_not_extendable(base, upd, v),
    ensures
        forall|k: int|
            0 < k < v.len() ==> not_extendable(
                base,
                upd,
                v[k - 1],
                #[trigger] v[k],
                views_covered(v.subrange(0, k)),
            ),
    decreases v.len(),
{
    if v.len() >= 2 {
        let init = v.drop_last();
        lemma_not_extendable_each(base, upd, init);
        assert forall|k: int| 0 < k < v.len() implies not_extendable(
            base,
            upd,
            v[k - 1],
            #[trigger] v[k],
            views_covered(v.subrange(0, k)),
        ) by {
            if k < init.len() {
                assert(v[k] == init[k] && v[k - 1] == init[k - 1]);
                assert(v.subrange(0, k) =~= init.subrange(0, k));
            } else {
                assert(v.subrange(0, k) =~= init);
            }
        }
    }
}

/// Closing the scan with its pending bytes keeps copies unextendable.
proof fn lemma_close_not_extendable(base: Seq<u8>, upd: Seq<u8>, r: (Seq<SegView>, Seq<u8>))
    requires
        views_not_extendable(base, upd, r.0),
        r.0.len() > 0 ==> r.0.last() is Copy,
        copies_long(r.0),
    ensures
        copies_long(
            if r.1.len() > 0 {
                r.0.push(SegView::Extra(r.1))
            } else {
                r.0
            },
        ),
        views_not_extendable(
            base,
            upd,
            if r.1.len() > 0 {
                r.0.push(SegView::Extra(r.1))
            } else {
                r.0
            },
        ),
{
    if r.1.len() > 0 {
        let v = r.0.push(SegView::Extra(r.1));
        assert(v.drop_last() == r.0);
        if r.0.len() > 0 {
            assert(v[v.len() - 2] == r.0.last());
        }
        assert forall|k: int| 0 <= k < v.len() && (#[trigger] v[k]) is Copy implies v[k]->len
            >= MIN_MATCH by {
            assert(v[k] == r.0[k]);
        }
    }
}

/// No copy of the block parse right after an unmatched run can grow
/// backwards.
proof fn lemma_parse_not_extendable(base: Seq<u8>, upd: Seq<u8>)
    ensures
        views_not_extendable(base, upd, block_parse(base, upd)),
        copies_long(block_parse(base, upd)),
{
    let e = Seq::<SegView>::empty();
    assert(views_covered(e) == 0);
    lemma_block_scan_inv(base, upd, 0, e, Seq::<u8>::empty());
    let r = block_scan(base, upd, 0, e, Seq::<u8>::empty());
    lemma_close_not_extendable(base, upd, r);
}

/// Matches absorb the unmatched bytes before them: in the block parse, a
/// copy right after an unmatched run starts at the start of the base, or the
/// base byte before it differs from the last byte of that run (the new
/// bundle's byte just before the copy), so it could not have been
/// extended one byte further back. Every copy is at least `MIN_MATCH`
/// bytes long.
pub proof fn lemma_block_parse_maximal(base: Seq<u8>, upd: Seq<u8>)
    ensures
        MIN_MATCH == 24,
        forall|k: int|
            0 <= k < block_parse(base, upd).len() && (#[trigger] block_parse(base, upd)[k]) is Copy
                ==> block_parse(base, upd)[k]->len >= MIN_MATCH,
        ({
            let v = block_parse(base, upd);
            forall|k: int|
                0 < k < v.len() && v[k - 1] is Extra && (#[trigger] v[k]) is Copy ==> v[k]->pos <= 0
                    || base[v[k]->pos - 1] != upd[views_covered(v.subrange(0, k)) - 1]
        }),
{
    lemma_parse_not_extendable(base, upd);
    let v = block_parse(base, upd);
    lemma_not_extendable_each(base, upd, v);
    assert forall|k: int|
        0 < k < v.len() && v[k - 1] is Extra && (#[trigger] v[k]) is Copy implies v[k]->pos <= 0
            || base[v[k]->pos - 1] != upd[views_covered(v.subrange(0, k)) - 1] by {
        assert(not_extendable(base, upd, v[k - 1], v[k], views_covered(v.subrange(0, k))));
    }
}

impl crate::Codec for Block {
    /// Identifier stored in the envelope.
    fn name(&self) -> (n: &'static str)
        ensures
            n@ == "block"@,
    {
        "block"
    }

    /// Encodes the control stream that rebuilds `updated` from `base`,
    /// greedily copying fingerprint matches of at least `MIN_MATCH` bytes and
    /// extending each backwards over the unmatched bytes before it.
    fn create(&self, base: &[u8], updated: &[u8]) -> (res: Result<Vec<u8>>)
        ensures
            base@.len() > MAX_INPUT || updated@.len() > MAX_INPUT ==> res is Err,
            base@.len() <= MAX_INPUT && updated@.len() <= MAX_INPUT ==> res is Ok,
            res matches Err(e) ==> e is Codec,
            res matches Ok(p) ==> (48 * updated@.len() + 192 <= isize::MAX ==> control_payload(
                base@,
                updated@,
                p@,
            )),
            res matches Ok(p) ==> block_payload(base@, updated@, p@),
    {
        if base.len() > MAX_INPUT || updated.len() > MAX_INPUT {
            return Err(codec_failure("block: input exceeds 2 GiB"));
        }
        let index = BlockIndex::build(base);
        let mut builder = SegmentBuilder::new();
        let mut scan: usize = 0;
        let ghost goal = block_scan(base@, updated@, 0, Seq::<SegView>::empty(), Seq::<u8>::empty());
        proof {
            assert(builder.tail() =~= updated@.subrange(0, 0).subrange(0, 0));
            assert(seg_views(builder.segs()) =~= Seq::<SegView>::empty());
            assert(builder.tail() =~= Seq::<u8>::empty());
        }
        while scan + WINDOW <= updated.len()
            invariant
                scan <= updated@.len(),
                base@.len() <= MAX_INPUT,
                updated@.len() <= MAX_INPUT,
                index.wf(base@.len() as int),
                index.entries() == sorted_windows(base@),
                builder.describes(base@.len() as int, updated@.subrange(0, scan as int)),
                block_scan(base@, updated@, scan as int, seg_views(builder.segs()), builder.tail())
                    == goal,
            decreases updated@.len() - scan,
        {
            let fingerprint = window_fingerprint(slice_subrange(updated, scan, scan + WINDOW));
            let target = slice_subrange(updated, scan, updated.len());
            let mut best: (usize, usize) = (0, 0);
            let candidates = index.candidates(fingerprint);
            proof {
                let e = index.entries();
                assert forall|k: int| 0 <= k < candidates@.len() implies 0 <= #[trigger] candidates@[k]
                    && candidates@[k] + WINDOW <= base@.len() by {
                    assert(e.contains((fingerprint, candidates@[k])));
                    let j = choose|j: int| 0 <= j < e.len() && e[j] == (fingerprint, candidates@[k]);
                    assert(e[j].1 == candidates@[k]);
                }
            }
            let mut c: usize = 0;
            while c < candidates.len()
                invariant
                    c <= candidates@.len(),
                    scan < updated@.len(),
                    target@ == updated@.subrange(scan as int, updated@.len() as int),
                    forall|k: int| 0 <= k < candidates@.len() ==> 0 <= #[trigger] candidates@[k]
                        && candidates@[k] + WINDOW <= base@.len(),
                    best.1 + best.0 <= base@.len(),
                    best.0 <= target@.len(),
                    base@.subrange(best.1 as int, best.1 + best.0) == target@.subrange(
                        0,
                        best.0 as int,
                    ),
                    (best.0 as int, best.1 as int) == best_candidate(
                        base@,
                        target@,
                        candidates@.subrange(0, c as int),
                    ),
                decreases candidates@.len() - c,
            {
                let pos = candidates[c] as usize;
                let length = common_prefix(base, pos, target);
                proof {
                    lemma_is_lcp(base@.subrange(pos as int, base@.len() as int), target@, length as int);
                    assert(candidates@.subrange(0, c + 1).drop_last() =~= candidates@.subrange(
                        0,
                        c as int,
                    ));
                    assert(candidates@.subrange(0, c + 1).last() == candidates@[c as int]);
                }
                if length > best.0 {
                    proof {
                        let s = base@.subrange(pos as int, base@.len() as int);
                        assert(s.subrange(0, length as int) =~= base@.subrange(
                            pos as int,
                            pos + length,
                        ));
                    }
                    best = (length, pos);
                }
                c = c + 1;
            }
            proof {
                assert(candidates@.subrange(0, c as int) == candidates@);
                assert(fingerprint == fnv1a(updated@.subrange(scan as int, scan + WINDOW)));
                assert(candidates@ == run_candidates(sorted_windows(base@), fingerprint));
            }
            if best.0 < MIN_MATCH {
                let ghost old_b = builder;
                builder.extra(updated[scan]);
                proof {
                    assert(block_scan(base@, updated@, scan as int, seg_views(old_b.segs()), old_b.tail())
                        == block_scan(
                        base@,
                        updated@,
                        scan + 1,
                        seg_views(builder.segs()),
                        builder.tail(),
                    ));
                    lemma_extra_describes(
                        old_b,
                        builder,
                        base@.len() as int,
                        updated@.subrange(0, scan as int),
                        updated@[scan as int],
                    );
                    assert(updated@.subrange(0, scan as int).push(updated@[scan as int])
                        =~= updated@.subrange(0, scan + 1));
                }
                scan = scan + 1;
            } else {
                // Extend backwards into the unmatched tail so shifted regions
                // that only anchor mid-window still copy in one piece.
                let mut back: usize = 0;
                while back < builder.pending_len() && best.1 > back && base[best.1 - back - 1]
                    == updated[scan - back - 1]
                    invariant
                        back <= builder.tail().len(),
                        back <= best.1,
                        builder.tail().len() <= scan,
                        best.1 + best.0 <= base@.len(),
                        scan <= updated@.len(),
                        base@.subrange(best.1 - back, best.1 as int) == updated@.subrange(
                            scan - back,
                            scan as int,
                        ),
                        back_from(
                            base@,
                            updated@,
                            best.1 as int,
                            scan as int,
                            builder.tail().len() as int,
                            back as int,
                        ) == back_from(
                            base@,
                            updated@,
                            best.1 as int,
                            scan as int,
                            builder.tail().len() as int,
                            0,
                        ),
                    decreases builder.tail().len() - back,
                {
                    let ghost ob = back as int;
                    back = back + 1;
                    proof {
                        let bs = base@.subrange(best.1 - back, best.1 as int);
                        let us = updated@.subrange(scan - back, scan as int);
                        let bo = base@.subrange(best.1 - ob, best.1 as int);
                        let uo = updated@.subrange(scan - ob, scan as int);
                        assert forall|j: int| 0 <= j < back implies bs[j] == us[j] by {
                            if j > 0 {
                                assert(bs[j] == bo[j - 1]);
                                assert(us[j] == uo[j - 1]);
                            }
                        }
                        assert(bs =~= us);
                    }
                }
                let ghost b0 = builder;
                proof {
                    assert(back_from(
                        base@,
                        updated@,
                        best.1 as int,
                        scan as int,
                        b0.tail().len() as int,
                        back as int,
                    ) == back);
                }
                builder.reclaim_pending(back);
                proof {
                    assert(b0.tail().subrange(0, b0.tail().len() as int) == b0.tail());
                    lemma_reclaim_describes(
                        b0,
                        builder,
                        base@.len() as int,
                        updated@.subrange(0, scan as int),
                        back as int,
                    );
                    assert(updated@.subrange(0, scan as int).subrange(0, scan - back)
                        =~= updated@.subrange(0, scan - back));
                }
                let ghost b1 = builder;
                builder.match_region(scan - back, best.0 + back, best.1 - back);
                proof {
                    lemma_match_describes(
                        b1,
                        builder,
                        base@.len() as int,
                        updated@.subrange(0, scan - back),
                        updated@.subrange(scan - back, scan + best.0),
                        (best.1 - back) as usize,
                        (best.0 + back) as usize,
                    );
                    assert(updated@.subrange(0, scan - back) + updated@.subrange(
                        scan - back,
                        scan + best.0,
                    ) =~= updated@.subrange(0, scan + best.0));
                    let kept = b0.tail().subrange(0, b0.tail().len() - back);
                    assert(b1.tail() =~= kept);
                    let copy = Segment::Copy { pos: (best.1 - back) as usize, len: (best.0 + back) as usize };
                    let recorded = if kept.len() > 0 {
                        seg_views(b0.segs()).push(SegView::Extra(kept))
                    } else {
                        seg_views(b0.segs())
                    };
                    if kept.len() > 0 {
                        let mid = builder.segs()[b1.segs().len() as int];
                        assert(builder.segs() =~= b1.segs().push(mid).push(copy));
                        lemma_views_push(b1.segs(), mid);
                        lemma_views_push(b1.segs().push(mid), copy);
                    } else {
                        assert(builder.segs() =~= b1.segs().push(copy));
                        lemma_views_push(b1.segs(), copy);
                    }
                    assert(seg_views(builder.segs()) == recorded.push(seg_view(copy)));
                    assert(builder.tail() =~= Seq::<u8>::empty());
                }
                scan = scan + best.0;
            }
        }
        while scan < updated.len()
            invariant
                scan <= updated@.len(),
                scan + WINDOW > updated@.len(),
                base@.len() <= MAX_INPUT,
                updated@.len() <= MAX_INPUT,
                builder.describes(base@.len() as int, updated@.subrange(0, scan as int)),
                block_scan(base@, updated@, scan as int, seg_views(builder.segs()), builder.tail())
                    == goal,
            decreases updated@.len() - scan,
        {
            let ghost old_b = builder;
            builder.extra(updated[scan]);
            proof {
                assert(block_scan(base@, updated@, scan as int, seg_views(old_b.segs()), old_b.tail())
                    == block_scan(
                    base@,
                    updated@,
                    scan + 1,
                    seg_views(builder.segs()),
                    builder.tail(),
                ));
                lemma_extra_describes(
                    old_b,
                    builder,
                    base@.len() as int,
                    updated@.subrange(0, scan as int),
                    updated@[scan as int],
                );
                assert(updated@.subrange(0, scan as int).push(updated@[scan as int])
                    =~= updated@.subrange(0, scan + 1));
            }
            scan = scan + 1;
        }
        let ghost last = builder;
        let segments = builder.finish();
        proof {
            assert(updated@.subrange(0, scan as int) == updated@);
            lemma_finish_fits(last, base@.len() as int, updated@, segments@);
            lemma_fits_in_range(base@.len() as int, updated@, segments@);
            assert(goal == (seg_views(last.segs()), last.tail()));
            if last.tail().len() > 0 {
                assert(segments@ =~= last.segs().push(segments@.last()));
                lemma_views_push(last.segs(), segments@.last());
            }
            assert(seg_views(segments@) == block_parse(base@, updated@));
        }
        let out = serialize_segments(base, updated, segments.as_slice());
        proof {
            if out is Ok && 48 * updated@.len() + 192 <= isize::MAX {
                lemma_serialized_payload(base@, updated@, segments@, out->Ok_0@);
            }
            if out is Ok {
                assert(out->Ok_0@ == serialized(base@, updated@, segments@));
            }
        }
        out
    }

    /// Rebuilds the new bundle from `base` and a control stream `payload`.
    fn apply(&self, base: &[u8], payload: &[u8], expected_new_size: u64) -> (res: Result<
        Vec<u8>,
    >)
        ensures
            control_apply_result(base@, payload@, expected_new_size, res),
    {
        apply_payload(base, payload, expected_new_size)
    }
}

} // verus!
