//! The bsdiff algorithm (Percival 2003): build a suffix array over the base
//! bundle, walk the new bundle finding the longest match for every scan
//! position via binary search, and emit classic bsdiff control tuples.
//! Replay stays linear time and needs no index at all.
use vstd::prelude::*;

use crate::control::{
    apply_payload, control_apply_result, control_payload, lemma_extra_describes,
    lemma_emitted_views, lemma_finish_fits, lemma_fits_in_range, lemma_match_describes,
    lemma_serialized_payload, seg_views, serialize_segments, serialized, builder_step, finished,
    BuilderOp, SegView, Segment, SegmentBuilder,
};
use crate::error::{codec_failure, Result};
use crate::sais::{entries_in_range, suffix_array};
use crate::suffix_check::lemma_suffix_array_unique;

verus! {

/// Shortest copy region worth a control tuple.
pub const MIN_MATCH: usize = 8;

/// Bounds the base size so suffix positions fit the SA-IS integer alphabet.
pub const MAX_INPUT: usize = 0x7fff_ffff;

/// The bsdiff codec.
pub struct Bsdiff;

/// Lexicographic order of two byte strings: -1, 0 or 1, a proper prefix
/// sorting first.
pub open spec fn lex_order(a: Seq<u8>, b: Seq<u8>) -> int
    decreases a.len(),
{
    if a.len() == 0 && b.len() == 0 {
        0
    } else if a.len() == 0 {
        -1
    } else if b.len() == 0 {
        1
    } else if a[0] < b[0] {
        -1
    } else if a[0] > b[0] {
        1
    } else {
        lex_order(a.drop_first(), b.drop_first())
    }
}

/// Whether `l` is the length of the longest common prefix of `a` and `b`.
pub open spec fn is_lcp(a: Seq<u8>, b: Seq<u8>, l: int) -> bool {
    &&& 0 <= l <= a.len()
    &&& l <= b.len()
    &&& a.subrange(0, l) == b.subrange(0, l)
    &&& (l == a.len() || l == b.len() || a[l] != b[l])
}

/// Whether `base[pos..pos+len]` equals `updated[scan..scan+len]`.
pub open spec fn matches_at(base: Seq<u8>, updated: Seq<u8>, scan: int, pos: int, len: int) -> bool {
    &&& 0 <= pos
    &&& pos + len <= base.len()
    &&& 0 <= scan
    &&& scan + len <= updated.len()
    &&& base.subrange(pos, pos + len) == updated.subrange(scan, scan + len)
}

/// Dropping a shared first byte keeps the order.
proof fn lemma_lex_order_skip(a: Seq<u8>, b: Seq<u8>, i: int)
    requires
        0 <= i <= a.len(),
        i <= b.len(),
        a.subrange(0, i) == b.subrange(0, i),
    ensures
        lex_order(a, b) == lex_order(a.subrange(i, a.len() as int), b.subrange(i, b.len() as int)),
    decreases i,
{
    if i > 0 {
        assert(a[0] == a.subrange(0, i)[0]);
        assert(b[0] == b.subrange(0, i)[0]);
        let a1 = a.drop_first();
        let b1 = b.drop_first();
        assert(a1.subrange(0, i - 1) =~= a.subrange(1, i));
        assert(b1.subrange(0, i - 1) =~= b.subrange(1, i));
        assert(a.subrange(1, i) =~= a.subrange(0, i).drop_first());
        assert(b.subrange(1, i) =~= b.subrange(0, i).drop_first());
        lemma_lex_order_skip(a1, b1, i - 1);
        assert(a1.subrange(i - 1, a1.len() as int) =~= a.subrange(i, a.len() as int));
        assert(b1.subrange(i - 1, b1.len() as int) =~= b.subrange(i, b.len() as int));
    } else {
        assert(a.subrange(0, a.len() as int) == a);
        assert(b.subrange(0, b.len() as int) == b);
    }
}

/// Orders `base[p:]` against `target` the way the suffix array does: the
/// shorter prefix sorts first on ties, and the empty suffix (p == len)
/// sorts below everything.
pub fn compare_suffix(base: &[u8], p: usize, target: &[u8]) -> (r: i32)
    requires
        p <= base@.len(),
    ensures
        r == lex_order(base@.subrange(p as int, base@.len() as int), target@),
{
    let ghost suffix = base@.subrange(p as int, base@.len() as int);
    let slen = base.len() - p;
    let limit = if slen < target.len() {
        slen
    } else {
        target.len()
    };
    let mut i: usize = 0;
    while i < limit
        invariant
            i <= limit,
            limit <= slen,
            limit <= target@.len(),
            slen == suffix.len(),
            p + slen == base.len(),
            suffix == base@.subrange(p as int, base@.len() as int),
            suffix.subrange(0, i as int) == target@.subrange(0, i as int),
        decreases limit - i,
    {
        let a = base[p + i];
        let b = target[i];
        assert(a == suffix[i as int]);
        if a < b || a > b {
            proof {
                lemma_lex_order_skip(suffix, target@, i as int);
                let s1 = suffix.subrange(i as int, suffix.len() as int);
                let t1 = target@.subrange(i as int, target@.len() as int);
                assert(s1[0] == a && t1[0] == b);
            }
            if a < b {
                return -1;
            }
            return 1;
        }
        i = i + 1;
        assert(suffix.subrange(0, i as int) =~= target@.subrange(0, i as int));
    }
    proof {
        lemma_lex_order_skip(suffix, target@, i as int);
    }
    if slen == target.len() {
        0
    } else if slen == limit {
        -1
    } else {
        1
    }
}

/// Longest common prefix of `base[p:]` and `target`.
pub fn common_prefix(base: &[u8], p: usize, target: &[u8]) -> (l: usize)
    requires
        p <= base@.len(),
    ensures
        is_lcp(base@.subrange(p as int, base@.len() as int), target@, l as int),
{
    let slen = base.len() - p;
    let limit = if slen < target.len() {
        slen
    } else {
        target.len()
    };
    let mut i: usize = 0;
    while i < limit && base[p + i] == target[i]
        invariant
            i <= limit,
            limit <= slen,
            limit <= target@.len(),
            p + slen == base.len(),
            base@.subrange(p as int, p + i) == target@.subrange(0, i as int),
        decreases limit - i,
    {
        i = i + 1;
        assert(base@.subrange(p as int, p + i) =~= target@.subrange(0, i as int));
    }
    assert(base@.subrange(p as int, base@.len() as int).subrange(0, i as int) =~= base@.subrange(
        p as int,
        p + i,
    ));
    i
}

/// Length of the longest common prefix of `a` and `b`.
pub open spec fn lcp(a: Seq<u8>, b: Seq<u8>) -> nat
    decreases a.len(),
{
    if a.len() == 0 || b.len() == 0 || a[0] != b[0] {
        0
    } else {
        1 + lcp(a.drop_first(), b.drop_first())
    }
}

/// The suffix of `s` that starts at `p`.
pub open spec fn suffix(s: Seq<u8>, p: int) -> Seq<u8> {
    s.subrange(p, s.len() as int)
}

/// Whether `sa` is the suffix array of `base`: it lists every suffix start
/// `0..=base.len()`, the suffixes in strictly increasing order.
pub open spec fn sorted_suffixes(sa: Seq<i32>, base: Seq<u8>) -> bool {
    &&& forall|i: int| 0 <= i < sa.len() ==> 0 <= #[trigger] sa[i] <= base.len()
    &&& forall|i: int, j: int|
        #![trigger sa[i], sa[j]]
        0 <= i < j < sa.len() ==> lex_order(suffix(base, sa[i] as int), suffix(base, sa[j] as int))
            < 0
    &&& forall|p: int| 0 <= p <= base.len() ==> #[trigger] lists(sa, p)
}

/// Whether `sa` holds the position `p`.
pub open spec fn lists(sa: Seq<i32>, p: int) -> bool {
    exists|i: int| 0 <= i < sa.len() && #[trigger] sa[i] == p
}

/// Swapping the operands negates the order.
pub proof fn lemma_lex_antisym(a: Seq<u8>, b: Seq<u8>)
    ensures
        lex_order(a, b) == -lex_order(b, a),
    decreases a.len(),
{
    if a.len() > 0 && b.len() > 0 && a[0] == b[0] {
        lemma_lex_antisym(a.drop_first(), b.drop_first());
    }
}

/// The order is transitive, strictly so when one step is strict.
pub proof fn lemma_lex_trans(a: Seq<u8>, b: Seq<u8>, c: Seq<u8>)
    requires
        lex_order(a, b) <= 0,
        lex_order(b, c) <= 0,
    ensures
        lex_order(a, c) <= 0,
        lex_order(a, b) < 0 || lex_order(b, c) < 0 ==> lex_order(a, c) < 0,
    decreases a.len(),
{
    if a.len() > 0 && b.len() > 0 && c.len() > 0 && a[0] == b[0] && b[0] == c[0] {
        lemma_lex_trans(a.drop_first(), b.drop_first(), c.drop_first());
    }
}

/// A string ordered between `a` and `c` shares with each of them at least
/// the prefix they share with each other.
proof fn lemma_lcp_between(a: Seq<u8>, b: Seq<u8>, c: Seq<u8>)
    requires
        lex_order(a, b) <= 0,
        lex_order(b, c) <= 0,
    ensures
        lcp(a, c) <= lcp(b, c),
        lcp(a, c) <= lcp(a, b),
    decreases a.len(),
{
    if a.len() > 0 && b.len() > 0 && c.len() > 0 && a[0] == b[0] && b[0] == c[0] {
        lemma_lcp_between(a.drop_first(), b.drop_first(), c.drop_first());
    }
}

/// A common prefix is no longer than either string.
pub proof fn lemma_lcp_len(a: Seq<u8>, b: Seq<u8>)
    ensures
        lcp(a, b) <= a.len(),
        lcp(a, b) <= b.len(),
    decreases a.len(),
{
    if a.len() > 0 && b.len() > 0 && a[0] == b[0] {
        lemma_lcp_len(a.drop_first(), b.drop_first());
    }
}

/// The common prefix length does not depend on the operand order.
proof fn lemma_lcp_sym(a: Seq<u8>, b: Seq<u8>)
    ensures
        lcp(a, b) == lcp(b, a),
    decreases a.len(),
{
    if a.len() > 0 && b.len() > 0 && a[0] == b[0] {
        lemma_lcp_sym(a.drop_first(), b.drop_first());
    }
}

/// `is_lcp` names the longest common prefix length.
pub proof fn lemma_is_lcp(a: Seq<u8>, b: Seq<u8>, l: int)
    requires
        is_lcp(a, b, l),
    ensures
        lcp(a, b) == l,
    decreases l,
{
    if l > 0 {
        assert(a[0] == a.subrange(0, l)[0]);
        assert(b[0] == b.subrange(0, l)[0]);
        assert(a.drop_first().subrange(0, l - 1) =~= a.subrange(0, l).drop_first());
        assert(b.drop_first().subrange(0, l - 1) =~= b.subrange(0, l).drop_first());
        lemma_is_lcp(a.drop_first(), b.drop_first(), l - 1);
    }
}

/// How many leading entries of `sa` name suffixes below `t`: in a sorted
/// suffix array, where `t` would be inserted.
pub open spec fn below_target(base: Seq<u8>, sa: Seq<i32>, t: Seq<u8>) -> int
    decreases sa.len(),
{
    if sa.len() == 0 {
        0
    } else if lex_order(suffix(base, sa[0] as int), t) < 0 {
        1 + below_target(base, sa.drop_first(), t)
    } else {
        0
    }
}

/// Where every entry before `lo` is below `t` and the entry at `lo` is
/// not, `lo` is the count of entries below `t`.
proof fn lemma_below_target(base: Seq<u8>, sa: Seq<i32>, t: Seq<u8>, lo: int)
    requires
        0 <= lo <= sa.len(),
        forall|i: int| 0 <= i < lo ==> lex_order(suffix(base, #[trigger] sa[i] as int), t) < 0,
        lo < sa.len() ==> lex_order(suffix(base, sa[lo] as int), t) >= 0,
    ensures
        below_target(base, sa, t) == lo,
    decreases lo,
{
    if lo > 0 {
        assert(lex_order(suffix(base, sa[0] as int), t) < 0);
        let r = sa.drop_first();
        assert forall|i: int| 0 <= i < lo - 1 implies lex_order(suffix(base, #[trigger] r[i] as int), t)
            < 0 by {
            assert(r[i] == sa[i + 1]);
        }
        lemma_below_target(base, r, t, lo - 1);
    }
}

/// The match with `t` found at slot `idx` of `sa` if it beats `best`: a
/// slot holding a non-empty suffix whose common prefix with `t` is longer.
pub open spec fn consider_slot(base: Seq<u8>, t: Seq<u8>, sa: Seq<i32>, idx: int, best: (int, int)) -> (
    int,
    int,
) {
    if 0 <= idx < sa.len() && 0 <= sa[idx] < base.len() {
        let l = lcp(suffix(base, sa[idx] as int), t) as int;
        if l > best.0 {
            (l, sa[idx] as int)
        } else {
            best
        }
    } else {
        best
    }
}

/// The (length, position) `longest_match` finds over the suffix array `sa`:
/// the better of the two slots around the insertion point of the target,
/// the lower slot first.
pub open spec fn match_at(base: Seq<u8>, upd: Seq<u8>, scan: int, sa: Seq<i32>) -> (int, int) {
    let t = suffix(upd, scan);
    let lo = below_target(base, sa, t);
    consider_slot(base, t, sa, lo, consider_slot(base, t, sa, lo - 1, (0, 0)))
}

/// Finds the longest prefix of `updated[scan..]` that also occurs in
/// `base`, using the suffix array: a binary search for the suffix boundary
/// of the target, then the longer match of the two suffixes adjacent to it.
/// The result is a real match, and the full common prefix at its position;
/// over a sorted suffix array no base position matches longer.
pub fn longest_match(sa: &[i32], base: &[u8], updated: &[u8], scan: usize) -> (res: (
    usize,
    usize,
))
    requires
        scan < updated@.len(),
        entries_in_range(sa@, base@.len() as int),
    ensures
        matches_at(base@, updated@, scan as int, res.1 as int, res.0 as int),
        res.0 > 0 ==> is_lcp(
            base@.subrange(res.1 as int, base@.len() as int),
            updated@.subrange(scan as int, updated@.len() as int),
            res.0 as int,
        ),
        res.0 == 0 ==> res.1 == 0,
        sorted_suffixes(sa@, base@) ==> (res.0 as int, res.1 as int) == match_at(
            base@,
            updated@,
            scan as int,
            sa@,
        ),
        sorted_suffixes(sa@, base@) ==> forall|p: int|
            0 <= p < base@.len() ==> #[trigger] lcp(suffix(base@, p), suffix(updated@, scan as int))
                <= res.0,
{
    let target = vstd::slice::slice_subrange(updated, scan, updated.len());
    let ghost sorted = sorted_suffixes(sa@, base@);
    let mut lo: usize = 0;
    let mut hi: usize = sa.len();
    while lo < hi
        invariant
            lo <= hi <= sa@.len(),
            entries_in_range(sa@, base@.len() as int),
            sorted == sorted_suffixes(sa@, base@),
            target@ == suffix(updated@, scan as int),
            sorted ==> forall|i: int|
                0 <= i < lo ==> lex_order(suffix(base@, #[trigger] sa@[i] as int), target@) < 0,
            sorted ==> forall|i: int|
                hi <= i < sa@.len() ==> lex_order(suffix(base@, #[trigger] sa@[i] as int), target@)
                    >= 0,
        decreases hi - lo,
    {
        let mid = lo + (hi - lo) / 2;
        let e = sa[mid];
        let p = if e < 0 {
            base.len()
        } else {
            e as usize
        };
        if compare_suffix(base, p, target) < 0 {
            proof {
                if sorted {
                    assert forall|i: int| 0 <= i < mid + 1 implies lex_order(
                        suffix(base@, #[trigger] sa@[i] as int),
                        target@,
                    ) < 0 by {
                        if i < mid {
                            assert(lex_order(suffix(base@, sa@[i] as int), suffix(base@, sa@[mid as int] as int)) < 0);
                            lemma_lex_trans(
                                suffix(base@, sa@[i] as int),
                                suffix(base@, sa@[mid as int] as int),
                                target@,
                            );
                        }
                    }
                }
            }
            lo = mid + 1;
        } else {
            proof {
                if sorted {
                    assert forall|i: int| mid <= i < sa@.len() implies lex_order(
                        suffix(base@, #[trigger] sa@[i] as int),
                        target@,
                    ) >= 0 by {
                        if i > mid {
                            let sm = suffix(base@, sa@[mid as int] as int);
                            let si = suffix(base@, sa@[i] as int);
                            assert(lex_order(sm, si) < 0);
                            lemma_lex_antisym(sm, target@);
                            lemma_lex_trans(target@, sm, si);
                            lemma_lex_antisym(si, target@);
                        }
                    }
                }
            }
            hi = mid;
        }
    }
    let mut best: (usize, usize) = (0, 0);
    proof {
        assert(base@.subrange(0, 0) =~= updated@.subrange(scan as int, scan as int));
    }
    let mut round: usize = 0;
    while round < 2
        invariant
            round <= 2,
            lo <= sa@.len(),
            scan < updated@.len(),
            target@ == updated@.subrange(scan as int, updated@.len() as int),
            entries_in_range(sa@, base@.len() as int),
            matches_at(base@, updated@, scan as int, best.1 as int, best.0 as int),
            best.0 > 0 ==> is_lcp(
                base@.subrange(best.1 as int, base@.len() as int),
                target@,
                best.0 as int,
            ),
            best.0 == 0 ==> best.1 == 0,
            (best.0 as int, best.1 as int) == if round == 0 {
                (0int, 0int)
            } else if round == 1 {
                consider_slot(base@, target@, sa@, lo - 1, (0, 0))
            } else {
                consider_slot(base@, target@, sa@, lo as int, consider_slot(base@, target@, sa@, lo - 1, (0, 0)))
            },
            round >= 1 && lo > 0 && 0 <= sa@[lo - 1] < base@.len() ==> lcp(
                suffix(base@, sa@[lo - 1] as int),
                target@,
            ) <= best.0,
            round >= 2 && lo < sa@.len() && 0 <= sa@[lo as int] < base@.len() ==> lcp(
                suffix(base@, sa@[lo as int] as int),
                target@,
            ) <= best.0,
        decreases 2 - round,
    {
        let candidate = if round == 0 {
            if lo == 0 {
                None
            } else {
                Some(lo - 1)
            }
        } else {
            Some(lo)
        };
        round = round + 1;
        if let Some(idx) = candidate {
            if idx < sa.len() {
                let e = sa[idx];
                if 0 <= e && (e as usize) < base.len() {
                    let p = e as usize;
                    let l = common_prefix(base, p, target);
                    proof {
                        lemma_is_lcp(base@.subrange(p as int, base@.len() as int), target@, l as int);
                    }
                    if l > best.0 {
                        proof {
                            let s = base@.subrange(p as int, base@.len() as int);
                            assert(s.subrange(0, l as int) =~= base@.subrange(p as int, p + l));
                            assert(target@.subrange(0, l as int) =~= updated@.subrange(
                                scan as int,
                                scan + l,
                            ));
                        }
                        best = (l, p);
                    }
                }
            }
        }
    }
    proof {
        if sorted {
            lemma_below_target(base@, sa@, target@, lo as int);
            assert(target@ == suffix(updated@, scan as int));
            assert forall|p: int|
                0 <= p < base@.len() implies #[trigger] lcp(
                suffix(base@, p),
                suffix(updated@, scan as int),
            ) <= best.0 by {
                assert(lists(sa@, p));
                let k = choose|k: int| 0 <= k < sa@.len() && #[trigger] sa@[k] == p;
                let sk = suffix(base@, p);
                if k < lo {
                    let b = suffix(base@, sa@[lo - 1] as int);
                    if k < lo - 1 {
                        assert(lex_order(sk, b) < 0);
                    } else {
                        lemma_lex_antisym(sk, sk);
                    }
                    assert(lex_order(b, target@) < 0);
                    lemma_lcp_between(sk, b, target@);
                } else {
                    let b = suffix(base@, sa@[lo as int] as int);
                    if k > lo {
                        assert(lex_order(b, sk) < 0);
                    } else {
                        lemma_lex_antisym(sk, sk);
                    }
                    assert(lex_order(b, target@) >= 0);
                    lemma_lex_antisym(b, target@);
                    lemma_lcp_between(target@, b, sk);
                    lemma_lcp_sym(target@, sk);
                    lemma_lcp_sym(target@, b);
                }
            }
        }
    }
    best
}

/// A match never runs past the end of the new bundle.
pub proof fn lemma_match_at_bounded(base: Seq<u8>, upd: Seq<u8>, scan: int, sa: Seq<i32>)
    requires
        0 <= scan <= upd.len(),
    ensures
        0 <= match_at(base, upd, scan, sa).0 <= upd.len() - scan,
{
    let t = suffix(upd, scan);
    let lo = below_target(base, sa, t);
    if 0 <= lo - 1 < sa.len() && 0 <= sa[lo - 1] < base.len() {
        lemma_lcp_len(suffix(base, sa[lo - 1] as int), t);
    }
    if 0 <= lo < sa.len() && 0 <= sa[lo] < base.len() {
        lemma_lcp_len(suffix(base, sa[lo] as int), t);
    }
}

/// The greedy scan of bsdiff from offset `scan` with builder state `st`:
/// at every offset, the match `match_at` finds over the suffix array `sa`
/// is copied when it is at least `MIN_MATCH` bytes long, and otherwise the
/// byte stays pending.
pub open spec fn bsdiff_scan(
    base: Seq<u8>,
    upd: Seq<u8>,
    sa: Seq<i32>,
    scan: int,
    st: (Seq<SegView>, Seq<u8>),
) -> (Seq<SegView>, Seq<u8>)
    decreases upd.len() - scan,
{
    if scan < 0 || scan >= upd.len() {
        st
    } else {
        let m = match_at(base, upd, scan, sa);
        if m.0 < MIN_MATCH {
            bsdiff_scan(base, upd, sa, scan + 1, builder_step(st, BuilderOp::Extra(upd[scan])))
        } else {
            proof {
                lemma_match_at_bounded(base, upd, scan, sa);
            }
            bsdiff_scan(
                base,
                upd,
                sa,
                scan + m.0,
                builder_step(st, BuilderOp::Match { pos: m.1, len: m.0 }),
            )
        }
    }
}

/// The segments of bsdiff's greedy parse of `upd` over `base` with the
/// suffix array `sa`.
pub open spec fn bsdiff_parse(base: Seq<u8>, upd: Seq<u8>, sa: Seq<i32>) -> Seq<SegView> {
    finished(bsdiff_scan(base, upd, sa, 0, (Seq::<SegView>::empty(), Seq::<u8>::empty())))
}

/// Whether `payload` is the bsdiff payload of `upd` over `base`: the
/// control stream that encodes the greedy parse over the suffix array of
/// `base`.
pub open spec fn bsdiff_payload(base: Seq<u8>, upd: Seq<u8>, payload: Seq<u8>) -> bool {
    exists|sa: Seq<i32>, segs: Seq<Segment>|
        #![trigger sorted_suffixes(sa, base), seg_views(segs)]
        {
            &&& sa.len() == base.len() + 1
            &&& sorted_suffixes(sa, base)
            &&& seg_views(segs) == bsdiff_parse(base, upd, sa)
            &&& payload == serialized(base, upd, segs)
        }
}

/// The bsdiff payload of two bundles is unique.
pub proof fn lemma_bsdiff_payload_unique(base: Seq<u8>, upd: Seq<u8>, p1: Seq<u8>, p2: Seq<u8>)
    requires
        bsdiff_payload(base, upd, p1),
        bsdiff_payload(base, upd, p2),
    ensures
        p1 == p2,
{
    let (sa1, s1) = choose|sa: Seq<i32>, segs: Seq<Segment>|
        #![trigger sorted_suffixes(sa, base), seg_views(segs)]
        {
            &&& sa.len() == base.len() + 1
            &&& sorted_suffixes(sa, base)
            &&& seg_views(segs) == bsdiff_parse(base, upd, sa)
            &&& p1 == serialized(base, upd, segs)
        };
    let (sa2, s2) = choose|sa: Seq<i32>, segs: Seq<Segment>|
        #![trigger sorted_suffixes(sa, base), seg_views(segs)]
        {
            &&& sa.len() == base.len() + 1
            &&& sorted_suffixes(sa, base)
            &&& seg_views(segs) == bsdiff_parse(base, upd, sa)
            &&& p2 == serialized(base, upd, segs)
        };
    lemma_suffix_array_unique(base, sa1, sa2);
    lemma_emitted_views(base, upd, s1, s2);
}

/// In a sorted suffix array, the entries below `t` come first: exactly the
/// first `below_target` of them.
proof fn lemma_below_split(base: Seq<u8>, sa: Seq<i32>, t: Seq<u8>)
    requires
        forall|i: int, j: int|
            #![trigger sa[i], sa[j]]
            0 <= i < j < sa.len() ==> lex_order(suffix(base, sa[i] as int), suffix(base, sa[j] as int))
                < 0,
    ensures
        0 <= below_target(base, sa, t) <= sa.len(),
        forall|i: int|
            0 <= i < below_target(base, sa, t) ==> lex_order(
                suffix(base, #[trigger] sa[i] as int),
                t,
            ) < 0,
        forall|i: int|
            below_target(base, sa, t) <= i < sa.len() ==> lex_order(
                suffix(base, #[trigger] sa[i] as int),
                t,
            ) >= 0,
    decreases sa.len(),
{
    if sa.len() > 0 {
        let r = sa.drop_first();
        assert forall|i: int, j: int|
            #![trigger r[i], r[j]]
            0 <= i < j < r.len() implies lex_order(suffix(base, r[i] as int), suffix(base, r[j] as int))
            < 0 by {
            assert(r[i] == sa[i + 1] && r[j] == sa[j + 1]);
        }
        lemma_below_split(base, r, t);
        let s0 = suffix(base, sa[0] as int);
        if lex_order(s0, t) < 0 {
            assert forall|i: int|
                0 <= i < below_target(base, sa, t) implies lex_order(
                suffix(base, #[trigger] sa[i] as int),
                t,
            ) < 0 by {
                if i > 0 {
                    assert(sa[i] == r[i - 1]);
                }
            }
            assert forall|i: int|
                below_target(base, sa, t) <= i < sa.len() implies lex_order(
                suffix(base, #[trigger] sa[i] as int),
                t,
            ) >= 0 by {
                assert(sa[i] == r[i - 1]);
            }
        } else {
            assert forall|i: int| 0 <= i < sa.len() implies lex_order(
                suffix(base, #[trigger] sa[i] as int),
                t,
            ) >= 0 by {
                if i > 0 {
                    let si = suffix(base, sa[i] as int);
                    assert(lex_order(s0, si) < 0);
                    if lex_order(si, t) < 0 {
                        lemma_lex_trans(s0, si, t);
                    }
                }
            }
        }
    }
}

/// Over a sorted suffix array, `match_at` finds a longest match: no base
/// suffix shares a longer prefix with the new bundle from `scan`.
pub proof fn lemma_match_at_longest(base: Seq<u8>, upd: Seq<u8>, scan: int, sa: Seq<i32>)
    requires
        sorted_suffixes(sa, base),
    ensures
        forall|p: int|
            0 <= p < base.len() ==> #[trigger] lcp(suffix(base, p), suffix(upd, scan)) <= match_at(
                base,
                upd,
                scan,
                sa,
            ).0,
{
    let t = suffix(upd, scan);
    let lo = below_target(base, sa, t);
    lemma_below_split(base, sa, t);
    let first = consider_slot(base, t, sa, lo - 1, (0, 0));
    let m = match_at(base, upd, scan, sa);
    assert(m.0 >= first.0 && first.0 >= 0);
    assert forall|p: int| 0 <= p < base.len() implies #[trigger] lcp(
        suffix(base, p),
        suffix(upd, scan),
    ) <= m.0 by {
        assert(lists(sa, p));
        let k = choose|k: int| 0 <= k < sa.len() && #[trigger] sa[k] == p;
        let sk = suffix(base, p);
        if k < lo {
            let b = suffix(base, sa[lo - 1] as int);
            if k < lo - 1 {
                assert(lex_order(sk, b) < 0);
            } else {
                lemma_lex_antisym(sk, sk);
            }
            assert(lex_order(b, t) < 0);
            lemma_lcp_between(sk, b, t);
            if sa[lo - 1] == base.len() {
                assert(b.len() == 0);
            }
        } else {
            let b = suffix(base, sa[lo] as int);
            if k > lo {
                assert(lex_order(b, sk) < 0);
            } else {
                lemma_lex_antisym(sk, sk);
            }
            assert(lex_order(b, t) >= 0);
            lemma_lex_antisym(b, t);
            lemma_lcp_between(t, b, sk);
            lemma_lcp_sym(t, sk);
            lemma_lcp_sym(t, b);
            if sa[lo] == base.len() {
                assert(b.len() == 0);
            }
        }
    }
}

/// A non-empty match that `match_at` reports is the common prefix of the
/// new bundle from `scan` with the base suffix at its position.
pub proof fn lemma_match_at_attained(base: Seq<u8>, upd: Seq<u8>, scan: int, sa: Seq<i32>)
    ensures
        match_at(base, upd, scan, sa).0 > 0 ==> match_at(base, upd, scan, sa).0 == lcp(
            suffix(base, match_at(base, upd, scan, sa).1),
            suffix(upd, scan),
        ),
{
}

/// How many new-bundle bytes a segment view stands for.
pub open spec fn view_len(s: SegView) -> int {
    match s {
        SegView::Copy { len, .. } => len,
        SegView::Extra(d) => d.len() as int,
    }
}

/// How many new-bundle bytes the views cover together.
pub open spec fn views_covered(v: Seq<SegView>) -> int
    decreases v.len(),
{
    if v.len() == 0 {
        0
    } else {
        views_covered(v.drop_last()) + view_len(v.last())
    }
}

/// Whether no base suffix shares `MIN_MATCH` bytes with `upd[s..]`: the
/// longest base match at `s` is too short to copy.
pub open spec fn short_at(base: Seq<u8>, upd: Seq<u8>, s: int) -> bool {
    forall|p: int|
        0 <= p < base.len() ==> #[trigger] lcp(suffix(base, p), suffix(upd, s)) < MIN_MATCH
}

/// Whether a view starting at new-bundle offset `at` keeps the threshold:
/// a copy is a longest base match there, its length the common prefix of
/// its base suffix with the new bundle from `at` and at least `MIN_MATCH`;
/// an unmatched byte has no base match that long.
pub open spec fn view_keeps_threshold(base: Seq<u8>, upd: Seq<u8>, s: SegView, at: int) -> bool {
    match s {
        SegView::Copy { pos, len } => {
            &&& len >= MIN_MATCH
            &&& len == lcp(suffix(base, pos), suffix(upd, at))
            &&& forall|p: int|
                0 <= p < base.len() ==> #[trigger] lcp(suffix(base, p), suffix(upd, at)) <= len
        },
        SegView::Extra(d) => forall|j: int| 0 <= j < d.len() ==> #[trigger] short_at(base, upd, at + j),
    }
}

/// Whether every view of `v` keeps the threshold at its offset.
spec fn views_keep_threshold(base: Seq<u8>, upd: Seq<u8>, v: Seq<SegView>) -> bool
    decreases v.len(),
{
    if v.len() == 0 {
        true
    } else {
        views_keep_threshold(base, upd, v.drop_last()) && view_keeps_threshold(
            base,
            upd,
            v.last(),
            views_covered(v.drop_last()),
        )
    }
}

/// The scan state keeps the threshold: the recorded views do, and every
/// pending byte has only short base matches.
spec fn scan_keeps_threshold(
    base: Seq<u8>,
    upd: Seq<u8>,
    scan: int,
    st: (Seq<SegView>, Seq<u8>),
) -> bool {
    &&& views_keep_threshold(base, upd, st.0)
    &&& views_covered(st.0) + st.1.len() == scan
    &&& forall|j: int| 0 <= j < st.1.len() ==> #[trigger] short_at(base, upd, views_covered(st.0) + j)
}

/// The greedy scan keeps the threshold to the end.
proof fn lemma_scan_keeps_threshold(
    base: Seq<u8>,
    upd: Seq<u8>,
    sa: Seq<i32>,
    scan: int,
    st: (Seq<SegView>, Seq<u8>),
)
    requires
        sorted_suffixes(sa, base),
        0 <= scan <= upd.len(),
        scan_keeps_threshold(base, upd, scan, st),
    ensures
        views_keep_threshold(base, upd, finished(bsdiff_scan(base, upd, sa, scan, st))),
    decreases upd.len() - scan,
{
    if scan >= upd.len() {
        if st.1.len() > 0 {
            let f = st.0.push(SegView::Extra(st.1));
            assert(f.drop_last() == st.0);
        }
    } else {
        let m = match_at(base, upd, scan, sa);
        lemma_match_at_longest(base, upd, scan, sa);
        lemma_match_at_attained(base, upd, scan, sa);
        if m.0 < MIN_MATCH {
            let st2 = builder_step(st, BuilderOp::Extra(upd[scan]));
            assert forall|j: int| 0 <= j < st2.1.len() implies #[trigger] short_at(
                base,
                upd,
                views_covered(st2.0) + j,
            ) by {
                if j == st.1.len() {
                    assert forall|p: int| 0 <= p < base.len() implies #[trigger] lcp(
                        suffix(base, p),
                        suffix(upd, views_covered(st2.0) + j),
                    ) < MIN_MATCH by {
                        assert(lcp(suffix(base, p), suffix(upd, scan)) <= m.0);
                    }
                } else {
                    assert(short_at(base, upd, views_covered(st.0) + j));
                }
            }
            lemma_scan_keeps_threshold(base, upd, sa, scan + 1, st2);
        } else {
            lemma_match_at_bounded(base, upd, scan, sa);
            let st2 = builder_step(st, BuilderOp::Match { pos: m.1, len: m.0 });
            let flushed = if st.1.len() > 0 {
                st.0.push(SegView::Extra(st.1))
            } else {
                st.0
            };
            if st.1.len() > 0 {
                assert(flushed.drop_last() == st.0);
                assert(views_keep_threshold(base, upd, flushed));
            }
            assert(st2.0.drop_last() == flushed);
            assert(views_keep_threshold(base, upd, st2.0));
            lemma_scan_keeps_threshold(base, upd, sa, scan + m.0, st2);
        }
    }
}

/// Every view of a list that keeps the threshold does so at its offset.
proof fn lemma_threshold_each(base: Seq<u8>, upd: Seq<u8>, v: Seq<SegView>)
    requires
        views_keep_threshold(base, upd, v),
    ensures
        forall|k: int|
            0 <= k < v.len() ==> view_keeps_threshold(
                base,
                upd,
                #[trigger] v[k],
                views_covered(v.subrange(0, k)),
            ),
    decreases v.len(),
{
    if v.len() > 0 {
        let init = v.drop_last();
        lemma_threshold_each(base, upd, init);
        assert forall|k: int| 0 <= k < v.len() implies view_keeps_threshold(
            base,
            upd,
            #[trigger] v[k],
            views_covered(v.subrange(0, k)),
        ) by {
            if k < init.len() {
                assert(v[k] == init[k]);
                assert(v.subrange(0, k) =~= init.subrange(0, k));
            } else {
                assert(v.subrange(0, k) =~= init);
            }
        }
    }
}

/// The bsdiff parse copies only longest matches of at least `MIN_MATCH`
/// bytes, and leaves a byte unmatched only where no base suffix shares
/// `MIN_MATCH` bytes with the new bundle from that byte on: for the view at
/// index `k`, starting at new-bundle offset `views_covered(v[..k])`, a copy
/// has length `>= MIN_MATCH`, equal to the common prefix of its base suffix
/// with the new bundle there and to no less than that of any base suffix,
/// and each byte `j` of an unmatched run is `short_at` its offset.
pub proof fn lemma_bsdiff_parse_threshold(base: Seq<u8>, upd: Seq<u8>, sa: Seq<i32>)
    requires
        sorted_suffixes(sa, base),
    ensures
        MIN_MATCH == 8,
        ({
            let v = bsdiff_parse(base, upd, sa);
            forall|k: int|
                0 <= k < v.len() ==> {
                    &&& (#[trigger] v[k]) matches SegView::Copy { pos, len } ==> {
                        &&& len >= MIN_MATCH
                        &&& len == lcp(suffix(base, pos), suffix(upd, views_covered(v.subrange(0, k))))
                        &&& forall|p: int|
                            0 <= p < base.len() ==> #[trigger] lcp(
                                suffix(base, p),
                                suffix(upd, views_covered(v.subrange(0, k))),
                            ) <= len
                    }
                    &&& v[k] matches SegView::Extra(d) ==> forall|j: int|
                        0 <= j < d.len() ==> #[trigger] short_at(
                            base,
                            upd,
                            views_covered(v.subrange(0, k)) + j,
                        )
                }
        }),
{
    let st0 = (Seq::<SegView>::empty(), Seq::<u8>::empty());
    lemma_scan_keeps_threshold(base, upd, sa, 0, st0);
    let v = bsdiff_parse(base, upd, sa);
    lemma_threshold_each(base, upd, v);
    assert forall|k: int| 0 <= k < v.len() implies {
        &&& (#[trigger] v[k]) matches SegView::Copy { pos, len } ==> {
            &&& len >= MIN_MATCH
            &&& len == lcp(suffix(base, pos), suffix(upd, views_covered(v.subrange(0, k))))
            &&& forall|p: int|
                0 <= p < base.len() ==> #[trigger] lcp(
                    suffix(base, p),
                    suffix(upd, views_covered(v.subrange(0, k))),
                ) <= len
        }
        &&& v[k] matches SegView::Extra(d) ==> forall|j: int|
            0 <= j < d.len() ==> #[trigger] short_at(base, upd, views_covered(v.subrange(0, k)) + j)
    } by {
        assert(view_keeps_threshold(base, upd, v[k], views_covered(v.subrange(0, k))));
    }
}

impl crate::Codec for Bsdiff {
    /// Identifier stored in the envelope.
    fn name(&self) -> (n: &'static str)
        ensures
            n@ == "bsdiff"@,
    {
        "bsdiff"
    }

    /// Encodes the control stream that rebuilds `updated` from `base`,
    /// scanning with suffix-array matches of at least `MIN_MATCH` bytes.
    fn create(&self, base: &[u8], updated: &[u8]) -> (res: Result<Vec<u8>>)
        ensures
            base@.len() > MAX_INPUT || updated@.len() > MAX_INPUT ==> res is Err,
            base@.len() <= MAX_INPUT && updated@.len() <= MAX_INPUT ==> res is Ok,
            res matches Err(e) ==> e is Codec,
            res matches Ok(p) ==> (48 * updated@.len() + 192 <= isize::MAX ==> control_payload(
                base@,
                updated@,
                p@,
            )),
            res matches Ok(p) ==> bsdiff_payload(base@, updated@, p@),
    {
        if base.len() > MAX_INPUT || updated.len() > MAX_INPUT {
            return Err(codec_failure("bsdiff: input exceeds 2 GiB"));
        }
        let sa = suffix_array(base);
        let mut builder = SegmentBuilder::new();
        let mut scan: usize = 0;
        let ghost goal = bsdiff_scan(
            base@,
            updated@,
            sa@,
            0,
            (Seq::<SegView>::empty(), Seq::<u8>::empty()),
        );
        proof {
            assert(updated@.subrange(0, 0).len() == 0);
            assert(builder.tail() =~= updated@.subrange(0, 0).subrange(0, 0));
        }
        while scan < updated.len()
            invariant
                scan <= updated@.len(),
                base@.len() <= MAX_INPUT,
                updated@.len() <= MAX_INPUT,
                entries_in_range(sa@, base@.len() as int),
                sa@.len() == base@.len() + 1,
                sorted_suffixes(sa@, base@),
                builder.describes(base@.len() as int, updated@.subrange(0, scan as int)),
                bsdiff_scan(base@, updated@, sa@, scan as int, (seg_views(builder.segs()), builder.tail()))
                    == goal,
            decreases updated@.len() - scan,
        {
            let (length, pos) = longest_match(&sa, base, updated, scan);
            if length < MIN_MATCH {
                let ghost old_b = builder;
                builder.extra(updated[scan]);
                proof {
                    lemma_extra_describes(
                        old_b,
                        builder,
                        base@.len() as int,
                        updated@.subrange(0, scan as int),
                        updated@[scan as int],
                    );
                    assert(updated@.subrange(0, scan as int).push(updated@[scan as int])
                        =~= updated@.subrange(0, scan + 1));
                    assert(bsdiff_scan(
                        base@,
                        updated@,
                        sa@,
                        scan as int,
                        (seg_views(old_b.segs()), old_b.tail()),
                    ) == bsdiff_scan(
                        base@,
                        updated@,
                        sa@,
                        scan + 1,
                        (seg_views(builder.segs()), builder.tail()),
                    ));
                }
                scan = scan + 1;
            } else {
                let ghost old_b = builder;
                builder.match_region(scan, length, pos);
                proof {
                    assert(bsdiff_scan(
                        base@,
                        updated@,
                        sa@,
                        scan as int,
                        (seg_views(old_b.segs()), old_b.tail()),
                    ) == bsdiff_scan(
                        base@,
                        updated@,
                        sa@,
                        scan + length,
                        (seg_views(builder.segs()), builder.tail()),
                    ));
                }
                proof {
                    lemma_match_describes(
                        old_b,
                        builder,
                        base@.len() as int,
                        updated@.subrange(0, scan as int),
                        updated@.subrange(scan as int, scan + length),
                        pos,
                        length,
                    );
                    assert(updated@.subrange(0, scan as int) + updated@.subrange(
                        scan as int,
                        scan + length,
                    ) =~= updated@.subrange(0, scan + length));
                }
                scan = scan + length;
            }
        }
        let ghost last = builder;
        let segments = builder.finish();
        proof {
            assert(updated@.subrange(0, scan as int) == updated@);
            lemma_finish_fits(last, base@.len() as int, updated@, segments@);
            lemma_fits_in_range(base@.len() as int, updated@, segments@);
            assert(seg_views(segments@) == bsdiff_parse(base@, updated@, sa@));
        }
        let out = serialize_segments(base, updated, segments.as_slice());
        proof {
            if out is Ok {
                assert(out->Ok_0@ == serialized(base@, updated@, segments@));
                assert(sorted_suffixes(sa@, base@) && seg_views(segments@) == seg_views(segments@));
            }
        }
        proof {
            if out is Ok && 48 * updated@.len() + 192 <= isize::MAX {
                lemma_serialized_payload(base@, updated@, segments@, out->Ok_0@);
            }
        }
        out
    }

    /// Rebuilds the new bundle from `base` and a control stream `payload`.
    fn apply(&self, base: &[u8], payload: &[u8], expected_new_size: u64) -> (res: Result<
        Vec<u8>,
    >)
        ensures
            control_apply_result(base@, payload@, expected_new_size, res),
    {
        apply_payload(base, payload, expected_new_size)
    }
}

} // verus!
