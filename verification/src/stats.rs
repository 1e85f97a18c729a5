//! Latency statistics: sorting, percentiles, the histogram buckets and the
//! bars that draw them.
use vstd::prelude::*;

verus! {

/// `s` is in ascending order.
pub open spec fn ascending(s: Seq<u32>) -> bool {
    forall|i: int, j: int| 0 <= i <= j < s.len() ==> s[i] <= s[j]
}

/// Sorts the latencies in ascending order, calling `slice::sort_unstable`.
/// Its documentation says that it sorts the slice in ascending order,
/// without keeping the order of equal elements; the contract states that
/// the result is in ascending order and holds the same values.
#[verifier::external_body]
fn sort_ascending(v: &mut Vec<u32>)
    ensures
        final(v)@.len() == old(v)@.len(),
        ascending(final(v)@),
        final(v)@.to_multiset() == old(v)@.to_multiset(),
{
    v.sort_unstable();
}

/// The position that the nearest-rank percentile reads in a sorted list of
/// `len` values, for `p_milli` thousandths of a percent: `p / 100 * (len - 1)`
/// rounded to the nearest position, halves up.
pub open spec fn rank(len: nat, p_milli: nat) -> nat {
    ((2 * p_milli * (len - 1) + 100_000) / 200_000) as nat
}

/// The nearest rank: the position `rank(len, p)` is the one closest to
/// `p / 100 % * (len - 1)`, an exact half going up. For 90 % of ten values
/// that is position 8 (the ninth value), for 99 % position 9.
pub proof fn lemma_rank_nearest(len: nat, p_milli: nat)
    requires
        len >= 1,
    ensures
        200_000 * rank(len, p_milli) <= 2 * p_milli * (len - 1) + 100_000,
        2 * p_milli * (len - 1) + 100_000 < 200_000 * (rank(len, p_milli) + 1),
{
    let x = 2 * p_milli * (len - 1) + 100_000;
    let q = x / 200_000;
    assert(200_000 * q <= x < 200_000 * (q + 1)) by (nonlinear_arith)
        requires
            q == x / 200_000,
            x >= 0,
    ;
}

/// The largest percentile, 100 %, in thousandths of a percent.
pub const FULL_MILLI: u32 = 100_000;

proof fn lemma_rank_bounds(len: nat, p_milli: nat)
    requires
        len >= 1,
        p_milli <= 100_000,
    ensures
        rank(len, p_milli) <= len - 1,
{
    let m = (len - 1) as nat;
    assert(2 * p_milli * m + 100_000 <= 200_000 * m + 100_000) by (nonlinear_arith)
        requires
            p_milli <= 100_000,
    ;
    assert((2 * p_milli * m + 100_000) / 200_000 <= (200_000 * m + 100_000) / 200_000) by (
    nonlinear_arith)
        requires
            2 * p_milli * m + 100_000 <= 200_000 * m + 100_000,
    ;
    assert((200_000 * m + 100_000) / 200_000 == m) by (nonlinear_arith);
}

/// A larger percentile never reads an earlier position.
pub proof fn lemma_rank_monotone(len: nat, p: nat, q: nat)
    requires
        len >= 1,
        p <= q,
    ensures
        rank(len, p) <= rank(len, q),
{
    let m = (len - 1) as nat;
    assert(2 * p * m + 100_000 <= 2 * q * m + 100_000) by (nonlinear_arith)
        requires
            p <= q,
    ;
    assert((2 * p * m + 100_000) / 200_000 <= (2 * q * m + 100_000) / 200_000) by (
    nonlinear_arith)
        requires
            2 * p * m + 100_000 <= 2 * q * m + 100_000,
    ;
}

/// The value at percentile `p_milli` (in thousandths of a percent: 99.9 %
/// is 99 900) of a list sorted in ascending order; 0 for an empty list.
pub fn percentile(sorted: &[u32], p_milli: u32) -> (r: u32)
    requires
        p_milli <= FULL_MILLI,
    ensures
        sorted@.len() == 0 ==> r == 0,
        sorted@.len() > 0 ==> r == sorted@[rank(sorted@.len(), p_milli as nat) as int],
{
    if sorted.len() == 0 {
        return 0;
    }
    proof {
        lemma_rank_bounds(sorted@.len(), p_milli as nat);
    }
    let m = (sorted.len() - 1) as u128;
    let p = p_milli as u128;
    assert(2 * p * m <= 200_000 * 0x1_0000_0000_0000_0000) by (nonlinear_arith)
        requires
            p <= 100_000,
            m < 0x1_0000_0000_0000_0000,
    ;
    let idx = (2 * p * m + 100_000) / 200_000;
    sorted[idx as usize]
}

/// In a sorted list, a larger percentile is never a smaller value;
/// percentile 0 is the smallest value and percentile 100 the largest.
pub proof fn lemma_percentile_order(sorted: Seq<u32>, p: nat, q: nat)
    requires
        ascending(sorted),
        sorted.len() > 0,
        p <= q <= 100_000,
    ensures
        sorted[rank(sorted.len(), p) as int] <= sorted[rank(sorted.len(), q) as int],
        rank(sorted.len(), 0) == 0,
        rank(sorted.len(), 100_000) == sorted.len() - 1,
{
    lemma_rank_monotone(sorted.len(), p, q);
    lemma_rank_bounds(sorted.len(), q);
    let m = (sorted.len() - 1) as nat;
    assert((2 * 0 * m + 100_000) / 200_000 == 0nat) by (nonlinear_arith);
    assert((2 * 100_000 * m + 100_000) / 200_000 == m) by (nonlinear_arith);
}

/// The row of the latency table: smallest value, p50, p90, p99, p99.9,
/// largest value.
#[derive(Debug, Clone, Copy, PartialEq, Eq)]
pub struct LatencySummary {
    pub min: u32,
    pub p50: u32,
    pub p90: u32,
    pub p99: u32,
    pub p999: u32,
    pub max: u32,
}

/// The percentile of a sorted list as a value: 0 for an empty list.
pub open spec fn value_at(sorted: Seq<u32>, p_milli: nat) -> u32 {
    if sorted.len() == 0 {
        0
    } else {
        sorted[rank(sorted.len(), p_milli) as int]
    }
}

/// The summary row of a sorted list.
pub open spec fn summary_of(sorted: Seq<u32>) -> LatencySummary {
    LatencySummary {
        min: if sorted.len() == 0 {
            0
        } else {
            sorted[0]
        },
        p50: value_at(sorted, 50_000),
        p90: value_at(sorted, 90_000),
        p99: value_at(sorted, 99_000),
        p999: value_at(sorted, 99_900),
        max: if sorted.len() == 0 {
            0
        } else {
            sorted.last()
        },
    }
}

/// Sorts the latencies in place and reads the summary row off them.
pub fn summarize(lats: &mut Vec<u32>) -> (r: LatencySummary)
    ensures
        final(lats)@.len() == old(lats)@.len(),
        ascending(final(lats)@),
        final(lats)@.to_multiset() == old(lats)@.to_multiset(),
        r == summary_of(final(lats)@),
        final(lats)@.len() == 0 ==> r == (LatencySummary { min: 0, p50: 0, p90: 0, p99: 0, p999: 0, max: 0 }),
        final(lats)@.len() > 0 ==> {
            let s = final(lats)@;
            let n = s.len();
            &&& r.min == s[0]
            &&& r.p50 == s[rank(n, 50_000) as int]
            &&& r.p90 == s[rank(n, 90_000) as int]
            &&& r.p99 == s[rank(n, 99_000) as int]
            &&& r.p999 == s[rank(n, 99_900) as int]
            &&& r.max == s[n - 1]
        },
{
    sort_ascending(lats);
    let s = lats.as_slice();
    let n = s.len();
    LatencySummary {
        min: if n == 0 {
            0
        } else {
            s[0]
        },
        p50: percentile(s, 50_000),
        p90: percentile(s, 90_000),
        p99: percentile(s, 99_000),
        p999: percentile(s, 99_900),
        max: if n == 0 {
            0
        } else {
            s[n - 1]
        },
    }
}

/// The summary row of a sorted list is in ascending order, from the
/// smallest value through the percentiles to the largest.
pub proof fn lemma_summary_ascending(sorted: Seq<u32>)
    requires
        ascending(sorted),
    ensures
        ({
            let r = summary_of(sorted);
            r.min <= r.p50 <= r.p90 <= r.p99 <= r.p999 <= r.max
        }),
{
    if sorted.len() > 0 {
        lemma_percentile_order(sorted, 0, 50_000);
        lemma_percentile_order(sorted, 50_000, 90_000);
        lemma_percentile_order(sorted, 90_000, 99_000);
        lemma_percentile_order(sorted, 99_000, 99_900);
        lemma_percentile_order(sorted, 99_900, 100_000);
    }
}

/// The sum of the values.
pub open spec fn total(s: Seq<u32>) -> nat
    decreases s.len(),
{
    if s.len() == 0 {
        0
    } else {
        total(s.drop_last()) + s.last() as nat
    }
}

/// The sum of the latencies as a `u64`, wrapping on overflow.
pub fn latency_sum(lats: &[u32]) -> (r: u64)
    ensures
        r == total(lats@) % 0x1_0000_0000_0000_0000,
{
    let mut acc: u64 = 0;
    let mut i: usize = 0;
    while i < lats.len()
        invariant
            0 <= i <= lats.len(),
            acc == total(lats@.subrange(0, i as int)) % 0x1_0000_0000_0000_0000,
        decreases lats.len() - i,
    {
        let ghost pre = lats@.subrange(0, i as int);
        let ghost next = lats@.subrange(0, i as int + 1);
        assert(next.drop_last() =~= pre);
        let l = lats[i] as u64;
        assert(total(next) == total(pre) + l);
        let ghost t = total(pre);
        acc = acc.wrapping_add(l);
        assert(acc == (t + l) % 0x1_0000_0000_0000_0000) by {
            vstd::arithmetic::div_mod::lemma_add_mod_noop(t as int, l as int, 0x1_0000_0000_0000_0000);
            vstd::arithmetic::div_mod::lemma_small_mod(l as nat, 0x1_0000_0000_0000_0000);
            vstd::arithmetic::div_mod::lemma_mod_bound(t as int, 0x1_0000_0000_0000_0000);
            let a = t % 0x1_0000_0000_0000_0000;
            if a + l >= 0x1_0000_0000_0000_0000 {
                vstd::arithmetic::div_mod::lemma_fundamental_div_mod_converse(
                    a + l,
                    0x1_0000_0000_0000_0000,
                    1,
                    a + l - 0x1_0000_0000_0000_0000,
                );
            } else {
                vstd::arithmetic::div_mod::lemma_small_mod((a + l) as nat, 0x1_0000_0000_0000_0000);
            }
        }
        i = i + 1;
    }
    assert(lats@.subrange(0, lats@.len() as int) =~= lats@);
    acc
}

/// The number of histogram buckets.
pub const BUCKETS: usize = 9;

/// The bucket of a latency in microseconds: below 50, 100, 200, 500, 1000,
/// 2000, 5000, 10000, and the rest. The bounds grow about twofold, because
/// the tail matters more than the head.
pub open spec fn bucket_of(l: u32) -> int {
    if l < 50 {
        0
    } else if l < 100 {
        1
    } else if l < 200 {
        2
    } else if l < 500 {
        3
    } else if l < 1000 {
        4
    } else if l < 2000 {
        5
    } else if l < 5000 {
        6
    } else if l < 10000 {
        7
    } else {
        8
    }
}

/// The histogram bucket of latency `l`, the first whose upper bound is
/// above it; the last bound is `u32::MAX`, which no latency can reach.
pub fn bucket_index(l: u32) -> (r: usize)
    requires
        l < u32::MAX,
    ensures
        r == bucket_of(l),
        r < BUCKETS,
        r == 0 || seq![50u32, 100, 200, 500, 1000, 2000, 5000, 10000][r - 1] <= l,
        r == 8 || l < seq![50u32, 100, 200, 500, 1000, 2000, 5000, 10000][r as int],
{
    if l < 50 {
        0
    } else if l < 100 {
        1
    } else if l < 200 {
        2
    } else if l < 500 {
        3
    } else if l < 1000 {
        4
    } else if l < 2000 {
        5
    } else if l < 5000 {
        6
    } else if l < 10000 {
        7
    } else {
        8
    }
}

/// A latency falls in bucket `i` exactly when it is at or above the bound
/// below that bucket and under the bound above it, for the bounds 50, 100,
/// 200, 500, 1000, 2000, 5000 and 10000 microseconds: bucket 0 holds what
/// is under 50, bucket 8 what is 10000 or more, and each bucket is reached.
pub proof fn lemma_bucket_bounds(l: u32, i: int)
    requires
        0 <= i < 9,
    ensures
        ({
            let bounds = seq![50u32, 100, 200, 500, 1000, 2000, 5000, 10000];
            bucket_of(l) == i <==> (i == 0 || bounds[i - 1] <= l) && (i == 8 || l < bounds[i])
        }),
{
}

/// How many of the latencies fall in bucket `b`.
pub open spec fn count_in(s: Seq<u32>, b: int) -> nat
    decreases s.len(),
{
    if s.len() == 0 {
        0
    } else {
        count_in(s.drop_last(), b) + if bucket_of(s.last()) == b {
            1nat
        } else {
            0nat
        }
    }
}

/// Every latency is below `u32::MAX`, the last bucket's bound.
pub open spec fn in_range(s: Seq<u32>) -> bool {
    forall|i: int| 0 <= i < s.len() ==> #[trigger] s[i] < u32::MAX
}

proof fn lemma_count_in_le(s: Seq<u32>, b: int)
    ensures
        count_in(s, b) <= s.len(),
    decreases s.len(),
{
    if s.len() > 0 {
        lemma_count_in_le(s.drop_last(), b);
    }
}

/// Counts the latencies of each histogram bucket.
pub fn bucket_counts(lats: &[u32]) -> (r: Vec<u64>)
    requires
        in_range(lats@),
    ensures
        r@.len() == BUCKETS,
        forall|b: int| 0 <= b < BUCKETS ==> #[trigger] r@[b] == count_in(lats@, b),
        forall|b: int| 0 <= b < BUCKETS ==> #[trigger] r@[b] <= lats@.len(),
{
    let mut counts: Vec<u64> = Vec::new();
    let mut k: usize = 0;
    while k < BUCKETS
        invariant
            0 <= k <= BUCKETS,
            counts@.len() == k,
            forall|b: int| 0 <= b < k ==> #[trigger] counts@[b] == 0,
        decreases BUCKETS - k,
    {
        counts.push(0);
        k = k + 1;
    }
    let mut i: usize = 0;
    while i < lats.len()
        invariant
            0 <= i <= lats.len(),
            in_range(lats@),
            counts@.len() == BUCKETS,
            forall|b: int| 0 <= b < BUCKETS ==> #[trigger] counts@[b] == count_in(
                lats@.subrange(0, i as int),
                b,
            ),
        decreases lats.len() - i,
    {
        let ghost pre = lats@.subrange(0, i as int);
        let ghost next = lats@.subrange(0, i as int + 1);
        assert(next.drop_last() =~= pre);
        assert(next.last() == lats@[i as int]);
        let b = bucket_index(lats[i]);
        proof {
            lemma_count_in_le(pre, b as int);
        }
        let c = counts[b];
        counts.set(b, c + 1);
        assert forall|x: int| 0 <= x < BUCKETS implies #[trigger] counts@[x] == count_in(next, x) by {
            assert(count_in(next, x) == count_in(pre, x) + if bucket_of(lats@[i as int]) == x {
                1nat
            } else {
                0nat
            });
        }
        i = i + 1;
    }
    assert(lats@.subrange(0, lats@.len() as int) =~= lats@);
    assert forall|b: int| 0 <= b < BUCKETS implies #[trigger] counts@[b] <= lats@.len() by {
        lemma_count_in_le(lats@, b);
    }
    counts
}

/// The sum of the counts of buckets `0..k`.
pub open spec fn counted(s: Seq<u32>, k: int) -> nat
    decreases k,
{
    if k <= 0 {
        0
    } else {
        counted(s, k - 1) + count_in(s, k - 1)
    }
}

proof fn lemma_counted_step(s: Seq<u32>, k: int)
    requires
        s.len() > 0,
        0 <= k <= BUCKETS,
    ensures
        counted(s, k) == counted(s.drop_last(), k) + if 0 <= bucket_of(s.last()) < k {
            1nat
        } else {
            0nat
        },
    decreases k,
{
    if k > 0 {
        lemma_counted_step(s, k - 1);
    }
}

/// Every latency falls in exactly one bucket, so the bucket counts add
/// up to the number of latencies.
pub proof fn lemma_buckets_partition(s: Seq<u32>)
    ensures
        counted(s, BUCKETS as int) == s.len(),
    decreases s.len(),
{
    if s.len() > 0 {
        lemma_buckets_partition(s.drop_last());
        lemma_counted_step(s, BUCKETS as int);
    } else {
        lemma_counted_zero(s, BUCKETS as int);
    }
}

proof fn lemma_counted_zero(s: Seq<u32>, k: int)
    requires
        s.len() == 0,
    ensures
        counted(s, k) == 0,
    decreases k,
{
    if k > 0 {
        lemma_counted_zero(s, k - 1);
    }
}

/// The eighths of a character that a share `count / total` of a 50-wide
/// bar fills: `400 * count / total`, rounded to the nearest, halves up.
pub open spec fn eighths(count: nat, total: nat) -> nat {
    (800 * count + total) / (2 * total)
}

/// The partial block for `k` eighths, 1 to 7.
pub open spec fn partial_block(k: nat) -> char {
    if k == 1 {
        '▏'
    } else if k == 2 {
        '▎'
    } else if k == 3 {
        '▍'
    } else if k == 4 {
        '▌'
    } else if k == 5 {
        '▋'
    } else if k == 6 {
        '▊'
    } else {
        '▉'
    }
}

/// The bar of a share: full blocks for each whole eighth-group, then the
/// partial block of what is left; a share above zero that rounds to
/// nothing still shows the thinnest block.
pub open spec fn bar_text(count: nat, total: nat) -> Seq<char> {
    let e = eighths(count, total);
    let body = Seq::new(e / 8, |i: int| '█') + if e % 8 > 0 {
        seq![partial_block(e % 8)]
    } else {
        Seq::empty()
    };
    if body.len() == 0 && count > 0 {
        seq!['▏']
    } else {
        body
    }
}

/// Draws the share `count / total` as a bar of at most 50 characters, in
/// eighths of a character.
pub fn bar(count: u64, total: u64) -> (r: Vec<char>)
    requires
        0 < total,
        count <= total,
    ensures
        r@ == bar_text(count as nat, total as nat),
        r@.len() <= 50,
{
    let num = 800 * (count as u128) + (total as u128);
    let den = 2 * (total as u128);
    let e = num / den;
    assert(e <= 400) by (nonlinear_arith)
        requires
            e == num / den,
            num == 800 * count + total,
            den == 2 * total,
            count <= total,
            total > 0,
    ;
    let full = (e / 8) as usize;
    let rem = (e % 8) as usize;
    let mut s: Vec<char> = Vec::new();
    let mut i: usize = 0;
    while i < full
        invariant
            0 <= i <= full,
            s@ == Seq::new(i as nat, |j: int| '█'),
        decreases full - i,
    {
        s.push('█');
        assert(s@ =~= Seq::new(i as nat + 1, |j: int| '█'));
        i = i + 1;
    }
    if rem > 0 {
        let c = if rem == 1 {
            '▏'
        } else if rem == 2 {
            '▎'
        } else if rem == 3 {
            '▍'
        } else if rem == 4 {
            '▌'
        } else if rem == 5 {
            '▋'
        } else if rem == 6 {
            '▊'
        } else {
            '▉'
        };
        s.push(c);
    }
    assert(s@ =~= Seq::new(e as nat / 8, |j: int| '█') + if e % 8 > 0 {
        seq![partial_block(e as nat % 8)]
    } else {
        Seq::<char>::empty()
    });
    if s.len() == 0 && count > 0 {
        s.push('▏');
        assert(s@ =~= seq!['▏']);
    }
    s
}

/// The length of the bar for `e` eighths: the full blocks and the
/// partial one.
pub open spec fn blocks_len(e: nat) -> nat {
    e / 8 + if e % 8 > 0 {
        1nat
    } else {
        0nat
    }
}

proof fn lemma_bar_len(count: nat, total: nat)
    requires
        0 < total,
        count <= total,
    ensures
        eighths(count, total) <= 400,
        count == 0 ==> eighths(count, total) == 0,
        bar_text(count, total).len() == if blocks_len(eighths(count, total)) == 0 && count > 0 {
            1
        } else {
            blocks_len(eighths(count, total))
        },
        bar_text(count, total).len() <= 50,
{
    let e = eighths(count, total);
    assert(e <= 400) by (nonlinear_arith)
        requires
            e == (800 * count + total) / (2 * total),
            count <= total,
            total > 0,
    ;
    if count == 0 {
        assert(e == 0) by (nonlinear_arith)
            requires
                e == (800 * count + total) / (2 * total),
                count == 0,
                total > 0,
        ;
    }
}

proof fn lemma_eighths_monotone(c1: nat, t1: nat, c2: nat, t2: nat)
    requires
        0 < t1,
        0 < t2,
        c1 * t2 <= c2 * t1,
    ensures
        eighths(c1, t1) <= eighths(c2, t2),
{
    let a = 800 * c1 + t1;
    let b = 2 * t1;
    let c = 800 * c2 + t2;
    let d = 2 * t2;
    let q = a / b;
    assert(a * d <= c * b) by (nonlinear_arith)
        requires
            a == 800 * c1 + t1,
            b == 2 * t1,
            c == 800 * c2 + t2,
            d == 2 * t2,
            c1 * t2 <= c2 * t1,
    ;
    assert(q * b <= a) by (nonlinear_arith)
        requires
            q == a / b,
            b > 0,
            a >= 0,
    ;
    assert(q * d <= c) by (nonlinear_arith)
        requires
            q * b <= a,
            a * d <= c * b,
            b > 0,
            d > 0,
            q >= 0,
    {
        assert(q * b * d <= a * d);
        assert(q * d * b <= c * b);
    }
    assert(q <= c / d) by (nonlinear_arith)
        requires
            q * d <= c,
            d > 0,
            q >= 0,
            c >= 0,
    ;
}

/// A larger share never draws a shorter bar, no bar is wider than its
/// 50-character column, and only a share of nothing draws no bar at all.
pub proof fn lemma_bar_monotone(c1: nat, t1: nat, c2: nat, t2: nat)
    requires
        0 < t1,
        0 < t2,
        c1 <= t1,
        c2 <= t2,
        c1 * t2 <= c2 * t1,
    ensures
        bar_text(c1, t1).len() <= bar_text(c2, t2).len() <= 50,
        bar_text(c1, t1).len() == 0 <==> c1 == 0,
{
    lemma_bar_len(c1, t1);
    lemma_bar_len(c2, t2);
    lemma_eighths_monotone(c1, t1, c2, t2);
    let e1 = eighths(c1, t1);
    let e2 = eighths(c2, t2);
    assert(blocks_len(e1) <= blocks_len(e2));
    if c1 > 0 {
        assert(c2 > 0) by (nonlinear_arith)
            requires
                c1 > 0,
                t2 > 0,
                c1 * t2 <= c2 * t1,
        ;
    }
}

} // verus!
