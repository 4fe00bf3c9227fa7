//! A linear-time certificate for suffix arrays: a permutation of the text
//! positions in which every two neighbours are ordered by their first
//! symbol, and on a tie by the ranks of the suffixes one position further,
//! is the sorted suffix array. Texts are integer strings over symbols of at
//! least `1`; the symbol `0` stands for every position past the end, so a
//! proper prefix sorts first.
use vstd::prelude::*;

use crate::bsdiff::{
    lemma_lex_antisym, lex_order, lists, sorted_suffixes, suffix,
};

verus! {

/// The symbol at position `i` of `t`, `0` past the end.
pub open spec fn tch(t: Seq<i32>, i: int) -> int {
    if 0 <= i < t.len() {
        t[i] as int
    } else {
        0
    }
}

/// Whether the first `l` symbols from `p` are at most those from `q` in
/// lexicographic order (past the end every symbol is `0`).
pub open spec fn tle(t: Seq<i32>, p: int, q: int, l: nat) -> bool
    decreases l,
{
    if l == 0 {
        true
    } else if tch(t, p) != tch(t, q) {
        tch(t, p) < tch(t, q)
    } else {
        tle(t, p + 1, q + 1, (l - 1) as nat)
    }
}

/// Whether every symbol of `t` is at least `1`.
pub open spec fn positive(t: Seq<i32>) -> bool {
    forall|i: int| 0 <= i < t.len() ==> #[trigger] t[i] >= 1
}

/// Whether `sa` is the suffix array of the text `t`: it lists each position
/// `0..=t.len()` once, the suffixes in strictly increasing order.
pub open spec fn text_sorted(t: Seq<i32>, sa: Seq<i32>) -> bool {
    &&& sa.len() == t.len() + 1
    &&& forall|k: int| 0 <= k < sa.len() ==> 0 <= #[trigger] sa[k] <= t.len()
    &&& forall|i: int, j: int|
        #![trigger sa[i], sa[j]]
        0 <= i < j < sa.len() ==> sa[i] != sa[j] && tle(t, sa[i] as int, sa[j] as int, (t.len()
            + 1) as nat)
    &&& forall|p: int| 0 <= p <= t.len() ==> #[trigger] lists(sa, p)
}

/// Whether the neighbours at `k` and `k + 1` of `sa` pass the check: a
/// smaller first symbol, or the same symbol inside the text and a smaller
/// rank one position further.
pub open spec fn neighbours_ok(t: Seq<i32>, sa: Seq<i32>, rank: Seq<i32>, k: int) -> bool {
    let p = sa[k] as int;
    let q = sa[k + 1] as int;
    ||| tch(t, p) < tch(t, q)
    ||| tch(t, p) == tch(t, q) && p < t.len() && q < t.len() && rank[p + 1] < rank[q + 1]
}

/// Whether `sa` and `rank` are inverse permutations of `0..=t.len()` and
/// every pair of neighbours in `sa` passes the check.
pub open spec fn certified(t: Seq<i32>, sa: Seq<i32>, rank: Seq<i32>) -> bool {
    &&& sa.len() == t.len() + 1
    &&& rank.len() == t.len() + 1
    &&& forall|k: int|
        0 <= k < sa.len() ==> 0 <= #[trigger] sa[k] <= t.len() && rank[sa[k] as int] == k
    &&& forall|p: int|
        0 <= p <= t.len() ==> 0 <= #[trigger] rank[p] <= t.len() && sa[rank[p] as int] == p
    &&& forall|k: int| 0 <= k < t.len() ==> #[trigger] neighbours_ok(t, sa, rank, k)
}

proof fn lemma_tle_refl(t: Seq<i32>, p: int, l: nat)
    ensures
        tle(t, p, p, l),
    decreases l,
{
    if l > 0 {
        lemma_tle_refl(t, p + 1, (l - 1) as nat);
    }
}

proof fn lemma_tle_trans(t: Seq<i32>, p: int, q: int, r: int, l: nat)
    requires
        tle(t, p, q, l),
        tle(t, q, r, l),
    ensures
        tle(t, p, r, l),
    decreases l,
{
    if l > 0 && tch(t, p) == tch(t, q) && tch(t, q) == tch(t, r) {
        lemma_tle_trans(t, p + 1, q + 1, r + 1, (l - 1) as nat);
    }
}

proof fn lemma_tle_total(t: Seq<i32>, p: int, q: int, l: nat)
    ensures
        tle(t, p, q, l) || tle(t, q, p, l),
    decreases l,
{
    if l > 0 && tch(t, p) == tch(t, q) {
        lemma_tle_total(t, p + 1, q + 1, (l - 1) as nat);
    }
}

/// Two different suffixes differ within enough symbols: the shorter one
/// reaches the end, where the longer still has a positive symbol.
proof fn lemma_tle_antisym(t: Seq<i32>, p: int, q: int, l: nat)
    requires
        positive(t),
        0 <= p <= t.len(),
        0 <= q <= t.len(),
        l > t.len() - p || l > t.len() - q,
        tle(t, p, q, l),
        tle(t, q, p, l),
    ensures
        p == q,
    decreases l,
{
    if p < t.len() {
        assert(t[p] >= 1);
    }
    if q < t.len() {
        assert(t[q] >= 1);
    }
    if p < t.len() && q < t.len() && tch(t, p) == tch(t, q) {
        lemma_tle_antisym(t, p + 1, q + 1, (l - 1) as nat);
    }
}

/// Neighbourwise order carries over to every pair from `i` to `j`.
proof fn lemma_chain(t: Seq<i32>, sa: Seq<i32>, l: nat, i: int, j: int)
    requires
        0 <= i <= j < sa.len(),
        forall|k: int|
            0 <= k < sa.len() - 1 ==> #[trigger] tle(t, sa[k] as int, sa[k + 1] as int, l),
    ensures
        tle(t, sa[i] as int, sa[j] as int, l),
    decreases j - i,
{
    if i == j {
        lemma_tle_refl(t, sa[i] as int, l);
    } else {
        lemma_chain(t, sa, l, i, j - 1);
        let k = j - 1;
        assert(tle(t, sa[k] as int, sa[k + 1] as int, l));
        assert(k + 1 == j);
        lemma_tle_trans(t, sa[i] as int, sa[j - 1] as int, sa[j] as int, l);
    }
}

/// In a certified array, the first `l` symbols of every suffix are at most
/// those of every later one.
proof fn lemma_certified_prefixes(t: Seq<i32>, sa: Seq<i32>, rank: Seq<i32>, l: nat)
    requires
        certified(t, sa, rank),
    ensures
        forall|i: int, j: int|
            #![trigger sa[i], sa[j]]
            0 <= i <= j < sa.len() ==> tle(t, sa[i] as int, sa[j] as int, l),
    decreases l,
{
    if l > 0 {
        lemma_certified_prefixes(t, sa, rank, (l - 1) as nat);
        assert forall|k: int| 0 <= k < sa.len() - 1 implies #[trigger] tle(
            t,
            sa[k] as int,
            sa[k + 1] as int,
            l,
        ) by {
            assert(neighbours_ok(t, sa, rank, k));
            let p = sa[k] as int;
            let q = sa[k + 1] as int;
            if tch(t, p) == tch(t, q) {
                let i = rank[p + 1] as int;
                let j = rank[q + 1] as int;
                assert(sa[i] == p + 1);
                assert(sa[j] == q + 1);
                assert(tle(t, sa[i] as int, sa[j] as int, (l - 1) as nat));
            }
        }
        assert forall|i: int, j: int|
            #![trigger sa[i], sa[j]]
            0 <= i <= j < sa.len() implies tle(t, sa[i] as int, sa[j] as int, l) by {
            lemma_chain(t, sa, l, i, j);
        }
    }
}

/// A certified array is the suffix array of its text.
pub proof fn lemma_certified_sorted(t: Seq<i32>, sa: Seq<i32>, rank: Seq<i32>)
    requires
        certified(t, sa, rank),
    ensures
        text_sorted(t, sa),
{
    let l = (t.len() + 1) as nat;
    lemma_certified_prefixes(t, sa, rank, l);
    assert forall|i: int, j: int|
        #![trigger sa[i], sa[j]]
        0 <= i < j < sa.len() implies sa[i] != sa[j] && tle(t, sa[i] as int, sa[j] as int, l) by {
        assert(rank[sa[i] as int] == i && rank[sa[j] as int] == j);
    }
    assert forall|p: int| 0 <= p <= t.len() implies #[trigger] lists(sa, p) by {
        assert(sa[rank[p] as int] == p);
    }
}

/// The symbol at `i` (`0` past the end).
fn text_char(text: &[i32], i: usize) -> (c: i32)
    ensures
        c == tch(text@, i as int),
{
    if i < text.len() {
        text[i]
    } else {
        0
    }
}

/// Checks the certificate: `sa` must list every position of `text` and its
/// end once, start with the empty suffix, and order every two neighbours.
/// A `true` answer proves `sa` is the suffix array of `text`.
pub fn is_suffix_array(text: &[i32], sa: &Vec<i32>) -> (ok: bool)
    requires
        sa@.len() == text@.len() + 1,
        text@.len() <= i32::MAX,
    ensures
        ok ==> sa@[0] == text@.len() && text_sorted(text@, sa@),
{
    let n = text.len();
    let mut rank: Vec<i32> = Vec::new();
    while rank.len() <= n
        invariant
            rank@.len() <= n + 1,
            forall|p: int| 0 <= p < rank@.len() ==> #[trigger] rank@[p] == -1,
        decreases n + 1 - rank@.len(),
    {
        rank.push(-1);
    }
    let mut k: usize = 0;
    while k <= n
        invariant
            k <= n + 1,
            n <= i32::MAX,
            n == text@.len(),
            sa@.len() == n + 1,
            rank@.len() == n + 1,
            forall|j: int|
                0 <= j < k ==> 0 <= #[trigger] sa@[j] <= n && rank@[sa@[j] as int] == j,
            forall|p: int|
                0 <= p <= n ==> #[trigger] rank@[p] == -1 || (0 <= rank@[p] < k && sa@[rank@[p] as int]
                    == p),
        decreases n + 1 - k,
    {
        let p = sa[k];
        if p < 0 || p as usize > n {
            return false;
        }
        if rank[p as usize] != -1 {
            return false;
        }
        rank.set(p as usize, k as i32);
        k = k + 1;
    }
    let mut q: usize = 0;
    while q <= n
        invariant
            q <= n + 1,
            n <= i32::MAX,
            n == text@.len(),
            rank@.len() == n + 1,
            forall|p: int| 0 <= p < q ==> 0 <= #[trigger] rank@[p],
        decreases n + 1 - q,
    {
        if rank[q] < 0 {
            return false;
        }
        q = q + 1;
    }
    if sa[0] as usize != n {
        return false;
    }
    let mut i: usize = 0;
    while i < n
        invariant
            i <= n,
            n <= i32::MAX,
            n == text@.len(),
            sa@.len() == n + 1,
            rank@.len() == n + 1,
            forall|j: int| 0 <= j <= n ==> 0 <= #[trigger] sa@[j] <= n,
            forall|j: int| 0 <= j < i ==> #[trigger] neighbours_ok(text@, sa@, rank@, j),
        decreases n - i,
    {
        let p = sa[i] as usize;
        let r = sa[i + 1] as usize;
        let cp = text_char(text, p);
        let cr = text_char(text, r);
        if cp < cr {
        } else if cp == cr && p < n && r < n && rank[p + 1] < rank[r + 1] {
        } else {
            return false;
        }
        assert(neighbours_ok(text@, sa@, rank@, i as int));
        i = i + 1;
    }
    proof {
        lemma_certified_sorted(text@, sa@, rank@);
    }
    true
}

/// Whether the suffix at `p` sorts strictly below the one at `q`.
pub open spec fn tlt(t: Seq<i32>, p: int, q: int) -> bool {
    p != q && tle(t, p, q, (t.len() + 1) as nat)
}

/// Whether the suffixes at the positions `s` lists are in strictly
/// increasing order.
pub open spec fn ordered(t: Seq<i32>, s: Seq<i32>) -> bool {
    forall|i: int, j: int|
        #![trigger s[i], s[j]]
        0 <= i < j < s.len() ==> tlt(t, s[i] as int, s[j] as int)
}

/// Strict order is transitive.
proof fn lemma_tlt_trans(t: Seq<i32>, p: int, q: int, r: int)
    requires
        positive(t),
        0 <= p <= t.len(),
        0 <= q <= t.len(),
        0 <= r <= t.len(),
        tlt(t, p, q),
        tlt(t, q, r),
    ensures
        tlt(t, p, r),
{
    let l = (t.len() + 1) as nat;
    lemma_tle_trans(t, p, q, r, l);
    if p == r {
        lemma_tle_antisym(t, p, q, l);
    }
}

/// Whether the suffixes at `p` and `q` have the same symbol `k` further on.
spec fn agree(t: Seq<i32>, p: int, q: int, k: int) -> bool {
    tch(t, p + k) == tch(t, q + k)
}

/// Matching symbols can be skipped.
proof fn lemma_tle_skip(t: Seq<i32>, p: int, q: int, l: nat, i: int)
    requires
        0 <= i <= l,
        forall|k: int| 0 <= k < i ==> #[trigger] agree(t, p, q, k),
    ensures
        tle(t, p, q, l) == tle(t, p + i, q + i, (l - i) as nat),
    decreases i,
{
    if i > 0 {
        assert(agree(t, p, q, 0));
        assert(tch(t, p) == tch(t, q));
        assert forall|k: int| 0 <= k < i - 1 implies #[trigger] agree(t, p + 1, q + 1, k) by {
            assert(agree(t, p, q, k + 1));
        }
        lemma_tle_skip(t, p + 1, q + 1, (l - 1) as nat, i - 1);
    }
}

/// Whether the suffix at `p` sorts strictly below the one at `q`.
fn suffix_below(text: &[i32], p: usize, q: usize) -> (r: bool)
    requires
        positive(text@),
        p <= text@.len(),
        q <= text@.len(),
    ensures
        r == tlt(text@, p as int, q as int),
{
    let n = text.len();
    let ghost l = (n + 1) as nat;
    let mut i: usize = 0;
    while p + i < n && q + i < n && text[p + i] == text[q + i]
        invariant
            n == text@.len(),
            p <= n,
            q <= n,
            p + i <= n,
            q + i <= n,
            forall|k: int| 0 <= k < i ==> #[trigger] agree(text@, p as int, q as int, k),
        decreases n - p - i,
    {
        assert(agree(text@, p as int, q as int, i as int));
        i = i + 1;
    }
    proof {
        lemma_tle_skip(text@, p as int, q as int, l, i as int);
        if p + i < n {
            assert(text@[p + i] >= 1);
        }
        if q + i < n {
            assert(text@[q + i] >= 1);
        }
    }
    let r = text_char(text, p + i) < text_char(text, q + i);
    proof {
        if p == q {
            lemma_tle_refl(text@, p as int, l);
        }
    }
    r
}

/// Inserting a position between the suffixes below its own and those
/// above keeps the order.
proof fn lemma_insert_ordered(t: Seq<i32>, s: Seq<i32>, idx: int, x: i32)
    requires
        positive(t),
        0 <= idx <= s.len(),
        0 <= x <= t.len(),
        forall|j: int| 0 <= j < s.len() ==> 0 <= #[trigger] s[j] <= t.len(),
        ordered(t, s),
        forall|j: int| 0 <= j < idx ==> tlt(t, #[trigger] s[j] as int, x as int),
        idx < s.len() ==> tlt(t, x as int, s[idx] as int),
    ensures
        ordered(t, s.insert(idx, x)),
{
    let u = s.insert(idx, x);
    s.insert_ensures(idx, x);
    assert forall|a: int, b: int|
        #![trigger u[a], u[b]]
        0 <= a < b < u.len() implies tlt(t, u[a] as int, u[b] as int) by {
        if b < idx {
            assert(u[a] == s[a] && u[b] == s[b]);
        } else if b == idx {
            assert(u[a] == s[a]);
        } else if a < idx {
            assert(u[a] == s[a] && u[b] == s[b - 1]);
        } else if a == idx {
            assert(u[b] == s[b - 1]);
            if b - 1 > idx {
                assert(tlt(t, s[idx] as int, s[b - 1] as int));
                lemma_tlt_trans(t, x as int, s[idx] as int, s[b - 1] as int);
            }
        } else {
            assert(u[a] == s[a - 1] && u[b] == s[b - 1]);
        }
    }
}

/// The suffix array of `text` by insertion: each position goes before the
/// first listed suffix above its own.
pub fn sort_suffixes(text: &[i32]) -> (sa: Vec<i32>)
    requires
        text@.len() <= i32::MAX,
        positive(text@),
    ensures
        sa@[0] == text@.len(),
        text_sorted(text@, sa@),
{
    let n = text.len();
    let mut sa: Vec<i32> = Vec::new();
    let mut p: usize = 0;
    while p <= n
        invariant
            p <= n + 1,
            n == text@.len(),
            n <= i32::MAX,
            positive(text@),
            sa@.len() == p,
            forall|j: int| 0 <= j < sa@.len() ==> 0 <= #[trigger] sa@[j] < p,
            ordered(text@, sa@),
            forall|x: int| 0 <= x < p ==> #[trigger] lists(sa@, x),
        decreases n + 1 - p,
    {
        let mut idx: usize = 0;
        while idx < sa.len() && suffix_below(text, sa[idx] as usize, p)
            invariant
                idx <= sa@.len(),
                p <= n,
                n == text@.len(),
                positive(text@),
                forall|j: int| 0 <= j < sa@.len() ==> 0 <= #[trigger] sa@[j] < p,
                forall|j: int| 0 <= j < idx ==> tlt(text@, #[trigger] sa@[j] as int, p as int),
            decreases sa@.len() - idx,
        {
            idx = idx + 1;
        }
        proof {
            if idx < sa@.len() {
                let x = sa@[idx as int] as int;
                lemma_tle_total(text@, x, p as int, (n + 1) as nat);
            }
            lemma_insert_ordered(text@, sa@, idx as int, p as i32);
        }
        let ghost before = sa@;
        sa.insert(idx, p as i32);
        proof {
            before.insert_ensures(idx as int, p as i32);
            assert forall|j: int| 0 <= j < sa@.len() implies 0 <= #[trigger] sa@[j] < p + 1 by {
                if j < idx {
                    assert(sa@[j] == before[j]);
                } else if j > idx {
                    assert(sa@[j] == before[j - 1]);
                }
            }
            assert forall|x: int| 0 <= x < p + 1 implies #[trigger] lists(sa@, x) by {
                if x == p {
                    assert(sa@[idx as int] == x);
                } else {
                    assert(lists(before, x));
                    let j = choose|j: int| 0 <= j < before.len() && #[trigger] before[j] == x;
                    if j < idx {
                        assert(sa@[j] == x);
                    } else {
                        assert(sa@[j + 1] == x);
                    }
                }
            }
        }
        p = p + 1;
    }
    proof {
        let l = (n + 1) as nat;
        assert(lists(sa@, n as int));
        let j = choose|j: int| 0 <= j < sa@.len() && #[trigger] sa@[j] == n as int;
        if j > 0 {
            assert(tlt(text@, sa@[0] as int, sa@[j] as int));
            lemma_tle_total(text@, sa@[0] as int, n as int, l);
            assert(tch(text@, n as int) == 0);
            if sa@[0] < n {
                assert(text@[sa@[0] as int] >= 1);
            }
        }
        assert forall|i: int, k: int|
            #![trigger sa@[i], sa@[k]]
            0 <= i < k < sa@.len() implies sa@[i] != sa@[k] && tle(
            text@,
            sa@[i] as int,
            sa@[k] as int,
            l,
        ) by {
            assert(tlt(text@, sa@[i] as int, sa@[k] as int));
        }
    }
    sa
}

/// An integer text has one suffix array: two arrays that both sort its
/// suffixes agree.
pub proof fn lemma_text_sorted_unique(t: Seq<i32>, s1: Seq<i32>, s2: Seq<i32>)
    requires
        positive(t),
        text_sorted(t, s1),
        text_sorted(t, s2),
    ensures
        s1 == s2,
{
    assert forall|k: int| 0 <= k < s1.len() implies s1[k] == s2[k] by {
        lemma_text_sorted_prefix(t, s1, s2, k);
    }
    assert(s1 =~= s2);
}

/// Two arrays that sort the suffixes of `t` agree up to index `k`.
proof fn lemma_text_sorted_prefix(t: Seq<i32>, s1: Seq<i32>, s2: Seq<i32>, k: int)
    requires
        positive(t),
        text_sorted(t, s1),
        text_sorted(t, s2),
        0 <= k < s1.len(),
    ensures
        forall|j: int| 0 <= j <= k ==> #[trigger] s1[j] == s2[j],
    decreases k,
{
    if k > 0 {
        lemma_text_sorted_prefix(t, s1, s2, k - 1);
    }
    let p = s1[k] as int;
    let q = s2[k] as int;
    if p != q {
        assert(lists(s1, q));
        let a = choose|i: int| 0 <= i < s1.len() && #[trigger] s1[i] == q;
        assert(lists(s2, p));
        let b = choose|i: int| 0 <= i < s2.len() && #[trigger] s2[i] == p;
        if a < k {
            assert(s2[a] == q);
            assert(s2[a] != s2[k]);
        }
        if b < k {
            assert(s1[b] == p);
            assert(s1[b] != s1[k]);
        }
        assert(a > k && b > k);
        let l = (t.len() + 1) as nat;
        assert(tle(t, s1[k] as int, s1[a] as int, l));
        assert(tle(t, s2[k] as int, s2[b] as int, l));
        lemma_tle_antisym(t, p, q, l);
    }
}

/// Over a text of byte values shifted up by one, the symbol order is the
/// byte order of the suffixes.
pub proof fn lemma_text_order(d: Seq<u8>, t: Seq<i32>, p: int, q: int, l: nat)
    requires
        t.len() == d.len(),
        forall|i: int| 0 <= i < d.len() ==> #[trigger] t[i] == d[i] as int + 1,
        0 <= p <= d.len(),
        0 <= q <= d.len(),
        l > d.len() - p || l > d.len() - q,
    ensures
        tle(t, p, q, l) == (lex_order(suffix(d, p), suffix(d, q)) <= 0),
    decreases l,
{
    let a = suffix(d, p);
    let b = suffix(d, q);
    if p < d.len() {
        assert(a[0] == d[p]);
        assert(t[p] == d[p] as int + 1);
    }
    if q < d.len() {
        assert(b[0] == d[q]);
        assert(t[q] == d[q] as int + 1);
    }
    if p < d.len() && q < d.len() && d[p] == d[q] {
        assert(a.drop_first() =~= suffix(d, p + 1));
        assert(b.drop_first() =~= suffix(d, q + 1));
        lemma_text_order(d, t, p + 1, q + 1, (l - 1) as nat);
    } else if p == d.len() && q == d.len() {
        lemma_tle_refl(t, p, l);
    }
}

/// The suffix array of a text of byte values shifted up by one is the
/// suffix array of the bytes.
pub proof fn lemma_text_sorted_bytes(d: Seq<u8>, t: Seq<i32>, sa: Seq<i32>)
    requires
        t.len() == d.len(),
        forall|i: int| 0 <= i < d.len() ==> #[trigger] t[i] == d[i] as int + 1,
        text_sorted(t, sa),
    ensures
        sorted_suffixes(sa, d),
{
    let l = (d.len() + 1) as nat;
    assert forall|i: int, j: int|
        #![trigger sa[i], sa[j]]
        0 <= i < j < sa.len() implies lex_order(suffix(d, sa[i] as int), suffix(d, sa[j] as int))
        < 0 by {
        lemma_text_order(d, t, sa[i] as int, sa[j] as int, l);
        lemma_distinct_suffixes(d, sa[i] as int, sa[j] as int);
    }
}

/// Byte strings of order `0` are equal.
proof fn lemma_lex_zero(a: Seq<u8>, b: Seq<u8>)
    requires
        lex_order(a, b) == 0,
    ensures
        a == b,
    decreases a.len(),
{
    if a.len() > 0 && b.len() > 0 {
        lemma_lex_zero(a.drop_first(), b.drop_first());
        assert(a =~= seq![a[0]] + a.drop_first());
        assert(b =~= seq![b[0]] + b.drop_first());
    }
}

/// The suffixes at two different positions differ.
proof fn lemma_distinct_suffixes(d: Seq<u8>, p: int, q: int)
    requires
        0 <= p <= d.len(),
        0 <= q <= d.len(),
        p != q,
    ensures
        lex_order(suffix(d, p), suffix(d, q)) != 0,
{
    if lex_order(suffix(d, p), suffix(d, q)) == 0 {
        lemma_lex_zero(suffix(d, p), suffix(d, q));
        assert(suffix(d, p).len() == suffix(d, q).len());
    }
}

/// A text has one suffix array: two sorted arrays of its suffixes agree.
pub proof fn lemma_suffix_array_unique(d: Seq<u8>, s1: Seq<i32>, s2: Seq<i32>)
    requires
        s1.len() == d.len() + 1,
        s2.len() == d.len() + 1,
        sorted_suffixes(s1, d),
        sorted_suffixes(s2, d),
    ensures
        s1 == s2,
{
    assert forall|k: int| 0 <= k < s1.len() implies s1[k] == s2[k] by {
        lemma_suffix_array_prefix(d, s1, s2, k);
    }
    assert(s1 =~= s2);
}

/// Two sorted arrays of the suffixes of `d` agree up to index `k`.
proof fn lemma_suffix_array_prefix(d: Seq<u8>, s1: Seq<i32>, s2: Seq<i32>, k: int)
    requires
        s1.len() == d.len() + 1,
        s2.len() == d.len() + 1,
        sorted_suffixes(s1, d),
        sorted_suffixes(s2, d),
        0 <= k < s1.len(),
    ensures
        forall|j: int| 0 <= j <= k ==> #[trigger] s1[j] == s2[j],
    decreases k,
{
    if k > 0 {
        lemma_suffix_array_prefix(d, s1, s2, k - 1);
    }
    let p = s1[k] as int;
    let q = s2[k] as int;
    if p != q {
        assert(lists(s1, q));
        let a = choose|i: int| 0 <= i < s1.len() && #[trigger] s1[i] == q;
        assert(lists(s2, p));
        let b = choose|i: int| 0 <= i < s2.len() && #[trigger] s2[i] == p;
        if a < k {
            assert(s2[a] == q);
            assert(lex_order(suffix(d, s2[a] as int), suffix(d, s2[k] as int)) < 0);
            lemma_lex_antisym(suffix(d, q), suffix(d, q));
        }
        if b < k {
            assert(s1[b] == p);
            assert(lex_order(suffix(d, s1[b] as int), suffix(d, s1[k] as int)) < 0);
            lemma_lex_antisym(suffix(d, p), suffix(d, p));
        }
        assert(a > k && b > k);
        assert(lex_order(suffix(d, s1[k] as int), suffix(d, s1[a] as int)) < 0);
        assert(lex_order(suffix(d, s2[k] as int), suffix(d, s2[b] as int)) < 0);
        lemma_lex_antisym(suffix(d, p), suffix(d, q));
    }
}

} // verus!
