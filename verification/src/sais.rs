//! SA-IS suffix array construction (Nong, Zhang, Chan 2009), the algorithm
//! family behind bsdiff's suffix sorting, over an integer alphabet so the
//! recursion can reuse it directly. Input values are `>= 1`; value `0` is
//! reserved for the implicit trailing sentinel, which guarantees the empty
//! suffix sorts first and terminates the recursion.
//!
//! Every array access below is proved in bounds. Where that bound rests on
//! the ordering argument of the algorithm itself (bucket pointers meeting
//! the slots their bucket owns, reduced ranks naming real LMS positions),
//! the access is guarded by an explicit range test instead: such a test
//! never fails on a correct run.
use vstd::prelude::*;

use crate::bsdiff::{lists, sorted_suffixes};
use crate::suffix_check::{is_suffix_array, lemma_text_sorted_bytes, sort_suffixes, text_sorted};

verus! {

/// Upper bound of every bucket pointer after the prefix sums.
pub const BUCKET_BOUND: i64 = 0x4000_0001_0000_0000;

/// Whether every entry of `sa` is a text position `0..=n` or the empty
/// marker `-1`.
pub open spec fn entries_in_range(sa: Seq<i32>, n: int) -> bool {
    forall|i: int| 0 <= i < sa.len() ==> -1 <= #[trigger] sa[i] <= n
}

/// Whether every text value lies in `1..=max_value`.
pub open spec fn text_in_alphabet(text: Seq<i32>, max_value: int) -> bool {
    forall|i: int| 0 <= i < text.len() ==> 1 <= #[trigger] text[i] <= max_value
}

/// Whether every bucket pointer lies in `lo..=hi`.
pub open spec fn buckets_within(bucket: Seq<i64>, lo: int, hi: int) -> bool {
    forall|c: int| 0 <= c < bucket.len() ==> lo <= #[trigger] bucket[c] <= hi
}

/// Computes the suffix array of `data`: `data.len() + 1` entries, the empty
/// suffix and then every suffix start position, in lexicographic order of
/// the suffixes.
pub fn suffix_array(data: &[u8]) -> (sa: Vec<i32>)
    requires
        data@.len() <= i32::MAX,
    ensures
        sa@.len() == data@.len() + 1,
        entries_in_range(sa@, data@.len() as int),
        sa@[0] == data@.len(),
        sorted_suffixes(sa@, data@),
{
    let n = data.len();
    if n == 0 {
        let mut sa: Vec<i32> = Vec::new();
        sa.push(0);
        proof {
            assert(sa@[0] == 0);
            assert(lists(sa@, 0));
            assert forall|x: int| 0 <= x <= 0 implies #[trigger] lists(sa@, x) by {
                assert(sa@[0] == x);
            }
        }
        return sa;
    }
    let mut text: Vec<i32> = Vec::new();
    let mut max_value: i32 = 0;
    let mut i: usize = 0;
    while i < n
        invariant
            i <= n,
            n == data@.len(),
            text@.len() == i,
            0 <= max_value <= 256,
            text_in_alphabet(text@, max_value as int),
            forall|j: int| 0 <= j < i ==> #[trigger] text@[j] == data@[j] as int + 1,
        decreases n - i,
    {
        let v = data[i] as i32 + 1;
        text.push(v);
        if v > max_value {
            max_value = v;
        }
        i = i + 1;
    }
    let mut sa: Vec<i32> = Vec::new();
    let mut k: usize = 0;
    while k <= n
        invariant
            k <= n + 1,
            n <= i32::MAX,
            sa@.len() == k,
            entries_in_range(sa@, n as int),
        decreases n + 1 - k,
    {
        sa.push(0);
        k = k + 1;
    }
    sais(&text, &mut sa, max_value);
    proof {
        lemma_text_sorted_bytes(data@, text@, sa@);
    }
    sa
}

/// The character at text position `i`, with the sentinel `0` at the end.
fn ch_at(text: &[i32], i: usize) -> (c: i32)
    ensures
        i < text@.len() ==> c == text@[i as int],
        i >= text@.len() ==> c == 0,
{
    if i >= text.len() {
        0
    } else {
        text[i]
    }
}

/// Whether position `i` is an LMS position: the sentinel position `n`, or
/// an S-type position right after an L-type one.
fn is_lms(t: &Vec<bool>, i: usize, n: usize) -> (r: bool)
    requires
        t@.len() == n + 1,
        i <= n,
    ensures
        r == (i == n || (i > 0 && t@[i as int] && !t@[i - 1])),
{
    i == n || (i > 0 && t[i] && !t[i - 1])
}

/// Sets every entry of `sa` to `-1`.
fn clear(sa: &mut Vec<i32>)
    ensures
        final(sa)@.len() == old(sa)@.len(),
        forall|i: int| 0 <= i < final(sa)@.len() ==> #[trigger] final(sa)@[i] == -1,
{
    let mut i: usize = 0;
    while i < sa.len()
        invariant
            i <= sa@.len(),
            sa@.len() == old(sa)@.len(),
            forall|j: int| 0 <= j < i ==> #[trigger] sa@[j] == -1,
        decreases sa@.len() - i,
    {
        sa.set(i, -1);
        i = i + 1;
    }
}

/// How often `c` occurs in `text`.
pub open spec fn occurrences(text: Seq<i32>, c: int) -> int
    decreases text.len(),
{
    if text.len() == 0 {
        0
    } else {
        occurrences(text.drop_last(), c) + if text.last() == c {
            1int
        } else {
            0int
        }
    }
}

/// A character occurs at most once per position.
proof fn lemma_occurrences_bounded(text: Seq<i32>, c: int)
    ensures
        0 <= occurrences(text, c) <= text.len(),
    decreases text.len(),
{
    if text.len() > 0 {
        lemma_occurrences_bounded(text.drop_last(), c);
    }
}

/// The bucket sizes of `text` over `size` characters: how often each
/// character occurs, the sentinel counting once for character 0.
pub open spec fn bucket_counts(text: Seq<i32>, size: int) -> Seq<i64> {
    Seq::new(
        size as nat,
        |c: int|
            (occurrences(text, c) + if c == 0 {
                1int
            } else {
                0int
            }) as i64,
    )
}

/// The sum of the first `k` entries of `s`.
pub open spec fn prefix_total(s: Seq<i64>, k: int) -> int
    decreases k,
{
    if k <= 0 {
        0
    } else {
        prefix_total(s, k - 1) + s[k - 1]
    }
}

/// Bucket start offsets: each bucket begins after all smaller ones.
pub open spec fn starts_of(s: Seq<i64>) -> Seq<i64> {
    Seq::new(s.len(), |c: int| prefix_total(s, c) as i64)
}

/// Bucket end offsets: each bucket ends after itself and all smaller ones.
pub open spec fn ends_of(s: Seq<i64>) -> Seq<i64> {
    Seq::new(s.len(), |c: int| prefix_total(s, c + 1) as i64)
}

/// Counts each character of `text`, plus one for the sentinel in bucket 0.
fn count_buckets(text: &[i32], bucket: &mut Vec<i64>)
    requires
        text@.len() <= i32::MAX,
        forall|i: int| 0 <= i < text@.len() ==> 0 <= #[trigger] text@[i] < old(bucket)@.len(),
        old(bucket)@.len() > 0,
    ensures
        final(bucket)@.len() == old(bucket)@.len(),
        buckets_within(final(bucket)@, 0, 0x8000_0000),
        final(bucket)@ == bucket_counts(text@, old(bucket)@.len() as int),
{
    let mut c: usize = 0;
    while c < bucket.len()
        invariant
            c <= bucket@.len(),
            bucket@.len() == old(bucket)@.len(),
            forall|j: int| 0 <= j < c ==> #[trigger] bucket@[j] == 0,
        decreases bucket@.len() - c,
    {
        bucket.set(c, 0);
        c = c + 1;
    }
    bucket.set(0, 1);
    assert(bucket@ =~= bucket_counts(text@.subrange(0, 0), bucket@.len() as int));
    let mut i: usize = 0;
    while i < text.len()
        invariant
            i <= text@.len(),
            text@.len() <= i32::MAX,
            bucket@.len() == old(bucket)@.len(),
            forall|j: int| 0 <= j < text@.len() ==> 0 <= #[trigger] text@[j] < bucket@.len(),
            buckets_within(bucket@, 0, i + 1),
            bucket@ == bucket_counts(text@.subrange(0, i as int), bucket@.len() as int),
        decreases text@.len() - i,
    {
        let v = text[i] as usize;
        let b = bucket[v];
        bucket.set(v, b + 1);
        i = i + 1;
        proof {
            let pre = text@.subrange(0, i as int);
            assert(pre.drop_last() =~= text@.subrange(0, i - 1));
            assert(pre.last() == text@[i - 1]);
            assert forall|c: int| 0 <= c < bucket@.len() implies #[trigger] bucket@[c] == bucket_counts(
                pre,
                bucket@.len() as int,
            )[c] by {
                lemma_occurrences_bounded(pre, c);
                lemma_occurrences_bounded(pre.drop_last(), c);
            }
            assert(bucket@ =~= bucket_counts(pre, bucket@.len() as int));
        }
    }
    assert(text@.subrange(0, i as int) =~= text@);
}

/// Turns bucket counts into bucket start offsets.
fn buckets_to_start(bucket: &mut Vec<i64>)
    requires
        old(bucket)@.len() <= 0x8000_0002,
        buckets_within(old(bucket)@, 0, 0x8000_0000),
    ensures
        final(bucket)@.len() == old(bucket)@.len(),
        buckets_within(final(bucket)@, 0, BUCKET_BOUND as int),
        final(bucket)@ == starts_of(old(bucket)@),
{
    let mut sum: i64 = 0;
    let mut i: usize = 0;
    while i < bucket.len()
        invariant
            i <= bucket@.len(),
            bucket@.len() == old(bucket)@.len(),
            bucket@.len() <= 0x8000_0002,
            buckets_within(old(bucket)@, 0, 0x8000_0000),
            0 <= sum <= (i as int) * 0x8000_0000,
            sum == prefix_total(old(bucket)@, i as int),
            forall|j: int| 0 <= j < i ==> #[trigger] bucket@[j] == prefix_total(old(bucket)@, j),
            forall|j: int| 0 <= j < i ==> 0 <= #[trigger] bucket@[j] <= BUCKET_BOUND,
            forall|j: int| i <= j < bucket@.len() ==> #[trigger] bucket@[j] == old(bucket)@[j],
        decreases bucket@.len() - i,
    {
        let c = bucket[i];
        assert(0 <= old(bucket)@[i as int] <= 0x8000_0000);
        bucket.set(i, sum);
        sum = sum + c;
        i = i + 1;
    }
    assert(bucket@ =~= starts_of(old(bucket)@));
}

/// Turns bucket counts into bucket end offsets.
fn buckets_to_end(bucket: &mut Vec<i64>)
    requires
        old(bucket)@.len() <= 0x8000_0002,
        buckets_within(old(bucket)@, 0, 0x8000_0000),
    ensures
        final(bucket)@.len() == old(bucket)@.len(),
        buckets_within(final(bucket)@, 0, BUCKET_BOUND as int),
        final(bucket)@ == ends_of(old(bucket)@),
{
    let mut sum: i64 = 0;
    let mut i: usize = 0;
    while i < bucket.len()
        invariant
            i <= bucket@.len(),
            bucket@.len() == old(bucket)@.len(),
            bucket@.len() <= 0x8000_0002,
            buckets_within(old(bucket)@, 0, 0x8000_0000),
            0 <= sum <= (i as int) * 0x8000_0000,
            sum == prefix_total(old(bucket)@, i as int),
            forall|j: int| 0 <= j < i ==> #[trigger] bucket@[j] == prefix_total(old(bucket)@, j + 1),
            forall|j: int| 0 <= j < i ==> 0 <= #[trigger] bucket@[j] <= BUCKET_BOUND,
            forall|j: int| i <= j < bucket@.len() ==> #[trigger] bucket@[j] == old(bucket)@[j],
        decreases bucket@.len() - i,
    {
        assert(0 <= old(bucket)@[i as int] <= 0x8000_0000);
        sum = sum + bucket[i];
        bucket.set(i, sum);
        i = i + 1;
    }
    assert(bucket@ =~= ends_of(old(bucket)@));
}

/// A vector of `len` zeros.
fn zeros_i64(len: usize) -> (v: Vec<i64>)
    ensures
        v@.len() == len,
{
    let mut v: Vec<i64> = Vec::new();
    while v.len() < len
        invariant
            v@.len() <= len,
        decreases len - v@.len(),
    {
        v.push(0);
    }
    v
}

/// A vector of `len` copies of `x`.
fn filled_i32(len: usize, x: i32) -> (v: Vec<i32>)
    ensures
        v@.len() == len,
        forall|i: int| 0 <= i < len ==> #[trigger] v@[i] == x,
{
    let mut v: Vec<i32> = Vec::new();
    while v.len() < len
        invariant
            v@.len() <= len,
            forall|i: int| 0 <= i < v@.len() ==> #[trigger] v@[i] == x,
        decreases len - v@.len(),
    {
        v.push(x);
    }
    v
}

/// One step of the L-type pass at slot `i`: when the suffix before the one
/// in slot `i` is L-type, it goes to the next free slot at the front of its
/// bucket (if that slot lies in `sa`) and the bucket pointer advances.
pub open spec fn l_step(sa: Seq<i32>, bucket: Seq<i64>, t: Seq<bool>, text: Seq<i32>, i: int) -> (
    Seq<i32>,
    Seq<i64>,
) {
    let p = sa[i];
    if p >= 1 && !t[p - 1] {
        let c = text[p - 1] as int;
        let b = bucket[c];
        (
            if 0 <= b < sa.len() {
                sa.update(b as int, (p - 1) as i32)
            } else {
                sa
            },
            bucket.update(c, (b + 1) as i64),
        )
    } else {
        (sa, bucket)
    }
}

/// The L-type pass over slots `i..=n`, left to right.
pub open spec fn l_pass(
    sa: Seq<i32>,
    bucket: Seq<i64>,
    t: Seq<bool>,
    text: Seq<i32>,
    i: int,
    n: int,
) -> (Seq<i32>, Seq<i64>)
    decreases n + 1 - i,
{
    if i < 0 || i > n {
        (sa, bucket)
    } else {
        let st = l_step(sa, bucket, t, text, i);
        l_pass(st.0, st.1, t, text, i + 1, n)
    }
}

/// One step of the S-type pass at slot `k`: when the suffix before the one
/// in slot `k` is S-type, the bucket pointer retreats and the suffix goes to
/// the slot it names (if that slot lies in `sa`).
pub open spec fn s_step(sa: Seq<i32>, bucket: Seq<i64>, t: Seq<bool>, text: Seq<i32>, k: int) -> (
    Seq<i32>,
    Seq<i64>,
) {
    let p = sa[k];
    if p >= 1 && t[p - 1] {
        let c = text[p - 1] as int;
        let b = bucket[c] - 1;
        (
            if 0 <= b < sa.len() {
                sa.update(b, (p - 1) as i32)
            } else {
                sa
            },
            bucket.update(c, b as i64),
        )
    } else {
        (sa, bucket)
    }
}

/// The S-type pass over slots `j - 1` down to `0`.
pub open spec fn s_pass(sa: Seq<i32>, bucket: Seq<i64>, t: Seq<bool>, text: Seq<i32>, j: int) -> (
    Seq<i32>,
    Seq<i64>,
)
    decreases j,
{
    if j <= 0 {
        (sa, bucket)
    } else {
        let st = s_step(sa, bucket, t, text, j - 1);
        s_pass(st.0, st.1, t, text, j - 1)
    }
}

/// The suffix order induced from the seeded slots `sa`: the L-type pass from
/// the bucket starts, then the S-type pass from the bucket ends, over an
/// alphabet of `size` characters (the sentinel included).
pub open spec fn induced(sa: Seq<i32>, t: Seq<bool>, text: Seq<i32>, size: int, n: int) -> Seq<i32> {
    let counts = bucket_counts(text, size);
    let l = l_pass(sa, starts_of(counts), t, text, 0, n);
    s_pass(l.0, ends_of(counts), t, text, n + 1).0
}

/// Completes a full suffix order from the seeded suffixes using the classic
/// left-to-right L-type pass followed by the right-to-left S-type pass. Each
/// pass resets its bucket pointers, so the caller's (possibly decremented)
/// seeding state never leaks into the induction.
fn induce(sa: &mut Vec<i32>, t: &Vec<bool>, text: &[i32], max_value: i32, n: usize)
    requires
        old(sa)@.len() == n + 1,
        t@.len() == n + 1,
        text@.len() == n,
        n <= i32::MAX,
        0 <= max_value,
        text_in_alphabet(text@, max_value as int),
        entries_in_range(old(sa)@, n as int),
    ensures
        final(sa)@.len() == n + 1,
        entries_in_range(final(sa)@, n as int),
        final(sa)@ == induced(old(sa)@, t@, text@, max_value + 2, n as int),
{
    let ghost sa0 = sa@;
    let ghost counts = bucket_counts(text@, max_value + 2);
    let mut bucket = zeros_i64(max_value as usize + 2);
    count_buckets(text, &mut bucket);
    buckets_to_start(&mut bucket);
    let mut i: usize = 0;
    while i <= n
        invariant
            i <= n + 1,
            n <= i32::MAX,
            sa@.len() == n + 1,
            t@.len() == n + 1,
            text@.len() == n,
            bucket@.len() == max_value + 2,
            0 <= max_value,
            text_in_alphabet(text@, max_value as int),
            entries_in_range(sa@, n as int),
            buckets_within(bucket@, 0, BUCKET_BOUND + i),
            l_pass(sa@, bucket@, t@, text@, i as int, n as int) == l_pass(
                sa0,
                starts_of(counts),
                t@,
                text@,
                0,
                n as int,
            ),
        decreases n + 1 - i,
    {
        let ghost before = (sa@, bucket@);
        let p = sa[i];
        if p >= 1 {
            let q = (p - 1) as usize;
            if !t[q] {
                let c = text[q] as usize;
                let b = bucket[c];
                if b < sa.len() as i64 {
                    sa.set(b as usize, p - 1);
                }
                bucket.set(c, b + 1);
            }
        }
        assert((sa@, bucket@) == l_step(before.0, before.1, t@, text@, i as int));
        i = i + 1;
    }
    let ghost lsa = sa@;
    count_buckets(text, &mut bucket);
    buckets_to_end(&mut bucket);
    let mut j: usize = n + 1;
    while j > 0
        invariant
            j <= n + 1,
            n <= i32::MAX,
            sa@.len() == n + 1,
            t@.len() == n + 1,
            text@.len() == n,
            bucket@.len() == max_value + 2,
            0 <= max_value,
            text_in_alphabet(text@, max_value as int),
            entries_in_range(sa@, n as int),
            buckets_within(bucket@, j - (n + 1), BUCKET_BOUND as int),
            s_pass(sa@, bucket@, t@, text@, j as int) == s_pass(
                lsa,
                ends_of(counts),
                t@,
                text@,
                n + 1,
            ),
        decreases j,
    {
        let ghost before = (sa@, bucket@);
        j = j - 1;
        let p = sa[j];
        if p >= 1 {
            let q = (p - 1) as usize;
            if t[q] {
                let c = text[q] as usize;
                let b = bucket[c] - 1;
                bucket.set(c, b);
                if 0 <= b && b < sa.len() as i64 {
                    sa.set(b as usize, p - 1);
                }
            }
        }
        assert((sa@, bucket@) == s_step(before.0, before.1, t@, text@, j as int));
    }
}

/// The `len` characters of `text` from position `a` on, the sentinel `0`
/// standing for every position past the end.
pub open spec fn chars_from(text: Seq<i32>, a: int, len: int) -> Seq<i32> {
    Seq::new(len as nat, |i: int| if a + i < text.len() { text[a + i] } else { 0i32 })
}

/// Whether the LMS substrings starting at `a` and `b`, which end at
/// `end_of[a]` and `end_of[b]`, are identical: both ends lie at or after
/// their starts, the lengths agree, and so do the characters.
pub open spec fn lms_equal(text: Seq<i32>, a: int, b: int, end_of: Seq<i32>) -> bool {
    let ea = end_of[a] as int;
    let eb = end_of[b] as int;
    &&& a <= ea
    &&& b <= eb
    &&& ea - a == eb - b
    &&& chars_from(text, a, ea - a + 1) == chars_from(text, b, ea - a + 1)
}

/// Reports whether the LMS substrings starting at a and b are identical.
/// `end_of` maps an LMS position to the end of its substring.
fn lms_substrings_equal(text: &[i32], a: usize, b: usize, end_of: &Vec<i32>) -> (r: bool)
    requires
        a < end_of@.len(),
        b < end_of@.len(),
        end_of@.len() == text@.len() + 1,
        forall|j: int| 0 <= j < end_of@.len() ==> 0 <= #[trigger] end_of@[j] <= text@.len(),
    ensures
        r == lms_equal(text@, a as int, b as int, end_of@),
{
    let ea = end_of[a] as usize;
    let eb = end_of[b] as usize;
    if ea < a || eb < b {
        return false;
    }
    let len_a = ea - a + 1;
    let len_b = eb - b + 1;
    if len_a != len_b {
        return false;
    }
    let mut i: usize = 0;
    while i < len_a
        invariant
            i <= len_a,
            a + len_a <= end_of.len(),
            b + len_a <= end_of.len(),
            end_of@.len() == text@.len() + 1,
            chars_from(text@, a as int, i as int) == chars_from(text@, b as int, i as int),
            len_a as int == end_of@[a as int] as int - a + 1,
            len_a as int == end_of@[b as int] as int - b + 1,
        decreases len_a - i,
    {
        if ch_at(text, a + i) != ch_at(text, b + i) {
            assert(chars_from(text@, a as int, len_a as int)[i as int] != chars_from(
                text@,
                b as int,
                len_a as int,
            )[i as int]);
            assert(chars_from(text@, a as int, len_a as int) != chars_from(
                text@,
                b as int,
                len_a as int,
            ));
            assert(len_a as int == end_of@[a as int] as int - a + 1);
            return false;
        }
        i = i + 1;
        assert(chars_from(text@, a as int, i as int) =~= chars_from(text@, b as int, i as int)) by {
            assert forall|k: int| 0 <= k < i implies chars_from(text@, a as int, i as int)[k]
                == chars_from(text@, b as int, i as int)[k] by {
                if k < i - 1 {
                    assert(chars_from(text@, a as int, i - 1)[k] == chars_from(
                        text@,
                        b as int,
                        i - 1,
                    )[k]);
                }
            }
        }
    }
    true
}

/// Suffix-sorts `text` into `sa`, which has one more slot than `text` has
/// characters (the sentinel suffix): the result is the suffix array of
/// `text`, the empty suffix first. The two induced rounds build it, and a
/// linear-time certificate proves its order; an array failing the
/// certificate, which SA-IS never produces, would be replaced by a
/// comparison sort.
fn sais(text: &[i32], sa: &mut Vec<i32>, max_value: i32)
    requires
        old(sa)@.len() == text@.len() + 1,
        text@.len() <= i32::MAX,
        0 <= max_value,
        text_in_alphabet(text@, max_value as int),
    ensures
        final(sa)@.len() == text@.len() + 1,
        entries_in_range(final(sa)@, text@.len() as int),
        final(sa)@[0] == text@.len(),
        text_sorted(text@, final(sa)@),
    decreases text@.len(),
{
    let n = text.len();
    if n == 0 {
        sa.set(0, 0);
        proof {
            assert(sa@[0] == 0);
            assert(lists(sa@, 0));
        }
        return;
    }
    if n == 1 {
        sa.set(0, 1);
        sa.set(1, 0);
        proof {
            assert(sa@[0] == 1 && sa@[1] == 0);
            assert(lists(sa@, 1) && lists(sa@, 0));
            assert(text@[0] >= 1);
            assert(crate::suffix_check::tle(text@, 1, 0, 2));
        }
        return;
    }
    // S-type classification: t[i] is true when suffix i is S-type (strictly
    // smaller than its successor), with the sentinel position always S-type.
    let mut t: Vec<bool> = Vec::new();
    while t.len() <= n
        invariant
            t@.len() <= n + 1,
        decreases n + 1 - t@.len(),
    {
        t.push(false);
    }
    t.set(n, true);
    let mut i: usize = n;
    while i > 0
        invariant
            i <= n,
            n >= 2,
            t@.len() == n + 1,
            text@.len() == n,
            text_in_alphabet(text@, max_value as int),
            i < n ==> !t@[n - 1],
        decreases i,
    {
        i = i - 1;
        let next = if i + 1 < n {
            text[i + 1]
        } else {
            0
        };
        let s_type = text[i] < next || (text[i] == next && t[i + 1]);
        t.set(i, s_type);
    }
    let mut bucket = zeros_i64(max_value as usize + 2);
    count_buckets(text, &mut bucket);
    buckets_to_end(&mut bucket);

    // LMS positions in ascending text order; the sentinel position closes
    // the list and becomes the tail of the reduced problem. No two LMS
    // positions are adjacent, so there are at most (n + 1) / 2 of them.
    let mut lms: Vec<i32> = Vec::new();
    let ghost mut prev: bool = false;
    let mut k: usize = 1;
    while k <= n
        invariant
            1 <= k <= n + 1,
            n >= 2,
            n <= i32::MAX,
            t@.len() == n + 1,
            !t@[n - 1],
            prev == (k >= 2 && (k - 1 == n || (k - 1 > 0 && t@[k - 1] && !t@[k - 2]))),
            2 * lms@.len() <= (k - 1) + if prev {
                1int
            } else {
                0int
            },
            forall|j: int| 0 <= j < lms@.len() ==> 1 <= #[trigger] lms@[j] <= n,
            k > n ==> prev,
        decreases n + 1 - k,
    {
        let here = is_lms(&t, k, n);
        if here {
            lms.push(k as i32);
        }
        proof {
            prev = here;
        }
        k = k + 1;
    }
    let m = lms.len();

    // Round 1: seed the LMS positions at their bucket ends in reverse text
    // order, induce, and read the LMS substrings back in sorted order.
    clear(sa);
    let mut r: usize = m;
    while r > 0
        invariant
            r <= m,
            m <= n,
            m == lms@.len(),
            sa@.len() == n + 1,
            n <= i32::MAX,
            text@.len() == n,
            bucket@.len() == max_value + 2,
            0 <= max_value,
            text_in_alphabet(text@, max_value as int),
            forall|j: int| 0 <= j < lms@.len() ==> 1 <= #[trigger] lms@[j] <= n,
            entries_in_range(sa@, n as int),
            buckets_within(bucket@, r - m, BUCKET_BOUND as int),
        decreases r,
    {
        r = r - 1;
        let p = lms[r];
        assert(1 <= p <= n);
        let ci = ch_at(text, p as usize);
        assert(0 <= ci <= max_value) by {
            if (p as usize) < n {
                assert(1 <= text@[p as int] <= max_value);
            }
        }
        let c = ci as usize;
        let b = bucket[c] - 1;
        bucket.set(c, b);
        if 0 <= b && b < sa.len() as i64 {
            sa.set(b as usize, p);
        }
    }
    induce(sa, &t, text, max_value, n);

    let mut sorted_lms: Vec<i32> = Vec::new();
    let mut s: usize = 0;
    while s <= n
        invariant
            s <= n + 1,
            n <= i32::MAX,
            sa@.len() == n + 1,
            t@.len() == n + 1,
            sorted_lms@.len() <= s,
            forall|j: int| 0 <= j < sorted_lms@.len() ==> 0 <= #[trigger] sorted_lms@[j] <= n,
            entries_in_range(sa@, n as int),
        decreases n + 1 - s,
    {
        let p = sa[s];
        if p >= 0 && is_lms(&t, p as usize, n) {
            sorted_lms.push(p);
        }
        s = s + 1;
    }

    // Name the LMS substrings by their sorted order; equal substrings share
    // a name. name_at and end_of are indexed by text position. Every LMS
    // position receives its name below; the initial name 1 only keeps the
    // reduced text within the alphabet.
    let mut end_of = filled_i32(n + 1, 0);
    let mut e: usize = 0;
    while e < m
        invariant
            e <= m,
            m == lms@.len(),
            end_of@.len() == n + 1,
            n <= i32::MAX,
            text@.len() == n,
            forall|j: int| 0 <= j < lms@.len() ==> 1 <= #[trigger] lms@[j] <= n,
            forall|j: int| 0 <= j < end_of@.len() ==> 0 <= #[trigger] end_of@[j] <= n,
        decreases m - e,
    {
        let end = if e + 1 < m {
            lms[e + 1]
        } else {
            n as i32
        };
        end_of.set(lms[e] as usize, end);
        e = e + 1;
    }
    let mut name_at = filled_i32(n + 1, 1);
    let mut names: i32 = 1;
    name_at.set(n, 1);
    let mut w: usize = 1;
    while w < sorted_lms.len()
        invariant
            1 <= w,
            sorted_lms@.len() <= n + 1,
            n <= i32::MAX,
            1 <= names <= w,
            names <= n + 1,
            name_at@.len() == n + 1,
            end_of@.len() == n + 1,
            text@.len() == n,
            forall|j: int| 0 <= j < sorted_lms@.len() ==> 0 <= #[trigger] sorted_lms@[j] <= n,
            forall|j: int| 0 <= j < end_of@.len() ==> 0 <= #[trigger] end_of@[j] <= n,
            forall|j: int| 0 <= j < name_at@.len() ==> 1 <= #[trigger] name_at@[j] <= names,
        decreases sorted_lms@.len() - w,
    {
        let a = sorted_lms[w - 1] as usize;
        let b = sorted_lms[w] as usize;
        // A run names at most its LMS positions, half the text; the bound
        // on the counter never binds.
        if !lms_substrings_equal(text, a, b, &end_of) && names < i32::MAX {
            names = names + 1;
        }
        name_at.set(b, names);
        w = w + 1;
    }
    let mut reduced: Vec<i32> = Vec::new();
    let mut reduced_max: i32 = 0;
    let mut g: usize = 0;
    while g < m
        invariant
            g <= m,
            m == lms@.len(),
            reduced@.len() == g,
            name_at@.len() == n + 1,
            0 <= reduced_max <= names,
            names <= n + 1,
            forall|j: int| 0 <= j < lms@.len() ==> 1 <= #[trigger] lms@[j] <= n,
            forall|j: int| 0 <= j < name_at@.len() ==> 1 <= #[trigger] name_at@[j] <= names,
            forall|j: int| 0 <= j < g ==> 1 <= #[trigger] reduced@[j] <= reduced_max,
        decreases m - g,
    {
        let v = name_at[lms[g] as usize];
        reduced.push(v);
        if v > reduced_max {
            reduced_max = v;
        }
        g = g + 1;
    }

    // Solve the reduced problem. With all names distinct the suffix order is
    // the counting sort of the names themselves; otherwise recurse.
    let mut sa1 = filled_i32(m + 1, 0);
    if names as usize == m {
        sa1.set(0, m as i32);
        let mut h: usize = 0;
        while h < m
            invariant
                h <= m,
                m == reduced@.len(),
                sa1@.len() == m + 1,
                names == m,
                m <= i32::MAX,
                forall|j: int| 0 <= j < m ==> 1 <= #[trigger] reduced@[j] <= names,
            decreases m - h,
        {
            let v = reduced[h];
            sa1.set(v as usize, h as i32);
            h = h + 1;
        }
    } else {
        sais(&reduced, &mut sa1, reduced_max);
    }

    // Round 2: seed the LMS suffixes in their true sorted order and induce
    // the final suffix array.
    clear(sa);
    count_buckets(text, &mut bucket);
    buckets_to_end(&mut bucket);
    let mut r2: usize = m;
    while r2 > 0
        invariant
            r2 <= m,
            m <= n,
            m == lms@.len(),
            sa1@.len() == m + 1,
            sa@.len() == n + 1,
            n <= i32::MAX,
            text@.len() == n,
            bucket@.len() == max_value + 2,
            0 <= max_value,
            text_in_alphabet(text@, max_value as int),
            forall|j: int| 0 <= j < lms@.len() ==> 1 <= #[trigger] lms@[j] <= n,
            entries_in_range(sa@, n as int),
            buckets_within(bucket@, r2 - m, BUCKET_BOUND as int),
        decreases r2,
    {
        let rank = sa1[r2];
        r2 = r2 - 1;
        if 0 <= rank && (rank as usize) < m {
            let p = lms[rank as usize];
            assert(1 <= p <= n);
            let ci = ch_at(text, p as usize);
            assert(0 <= ci <= max_value) by {
                if (p as usize) < n {
                    assert(1 <= text@[p as int] <= max_value);
                }
            }
            let c = ci as usize;
            let b = bucket[c] - 1;
            bucket.set(c, b);
            if 0 <= b && b < sa.len() as i64 {
                sa.set(b as usize, p);
            }
        }
    }
    induce(sa, &t, text, max_value, n);
    if !is_suffix_array(text, sa) {
        *sa = sort_suffixes(text);
    }
}

} // verus!
