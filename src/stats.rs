//! Descriptive statistics over a buffer of elapsed times in nanoseconds.
use vstd::prelude::*;
use vstd::relations::{sorted_by, total_ordering};

verus! {

broadcast use vstd::seq_lib::group_to_multiset_ensures, vstd::multiset::group_multiset_axioms;

/// The largest sample value.
pub const NANOS_MAX: u64 = 0xffff_ffff_ffff_ffff;

/// Sum of the samples.
pub open spec fn sum_of(s: Seq<u64>) -> int
    decreases s.len(),
{
    if s.len() == 0 {
        0
    } else {
        sum_of(s.drop_last()) + s.last()
    }
}

/// Mean of the samples, rounded down to a whole nanosecond.
pub open spec fn mean_spec(s: Seq<u64>) -> int {
    sum_of(s) / (s.len() as int)
}

/// The ascending order on samples.
pub open spec fn ascending() -> spec_fn(u64, u64) -> bool {
    |a: u64, b: u64| a <= b
}

/// The samples sorted ascending.
pub open spec fn sorted_of(s: Seq<u64>) -> Seq<u64> {
    s.sort_by(ascending())
}

/// Middle element of the sorted samples, or the mean (rounded down) of the
/// two middle elements when the count is even.
pub open spec fn median_spec(s: Seq<u64>) -> int {
    let t = sorted_of(s);
    let h = s.len() / 2;
    if s.len() % 2 == 1 {
        t[h as int] as int
    } else {
        (t[h - 1] + t[h as int]) / 2
    }
}

/// How often `v` occurs among the samples.
pub open spec fn count_of(s: Seq<u64>, v: u64) -> nat {
    s.to_multiset().count(v)
}

/// `m` is the most frequent sample; among equally frequent samples it is the smallest.
pub open spec fn is_mode(s: Seq<u64>, m: u64) -> bool {
    &&& count_of(s, m) > 0
    &&& forall|v: u64|
        count_of(s, v) < count_of(s, m) || (count_of(s, v) == count_of(s, m) && m <= v)
}

/// Square of the distance of `x` from `mu`.
pub open spec fn sq_dev(x: u64, mu: int) -> int {
    (x - mu) * (x - mu)
}

/// Sum of the squared distances of the samples from `mu`.
pub open spec fn sq_dev_sum(s: Seq<u64>, mu: int) -> int
    decreases s.len(),
{
    if s.len() == 0 {
        0
    } else {
        sq_dev_sum(s.drop_last(), mu) + sq_dev(s.last(), mu)
    }
}

/// Mean squared distance from the mean, in square nanoseconds, rounded down.
pub open spec fn variance_spec(s: Seq<u64>) -> int {
    sq_dev_sum(s, mean_spec(s)) / (s.len() as int)
}

/// `r` is the square root of `v`, rounded down.
pub open spec fn is_floor_sqrt(v: int, r: int) -> bool {
    0 <= r && r * r <= v < (r + 1) * (r + 1)
}

proof fn lemma_sum_bound(s: Seq<u64>)
    ensures
        0 <= sum_of(s) <= s.len() * NANOS_MAX,
    decreases s.len(),
{
    if s.len() > 0 {
        lemma_sum_bound(s.drop_last());
        assert((s.len() - 1) * NANOS_MAX + NANOS_MAX == s.len() * NANOS_MAX) by (nonlinear_arith);
    }
}

proof fn lemma_mean_bound(s: Seq<u64>)
    requires
        s.len() > 0,
    ensures
        0 <= mean_spec(s) <= NANOS_MAX,
{
    lemma_sum_bound(s);
    let n = s.len() as int;
    let t = sum_of(s);
    assert(t / n <= NANOS_MAX) by (nonlinear_arith)
        requires
            0 <= t <= n * NANOS_MAX,
            n > 0,
    ;
    assert(t / n >= 0) by (nonlinear_arith)
        requires
            0 <= t,
            n > 0,
    ;
}

/// Mean of a non-empty buffer, in nanoseconds rounded down.
pub fn mean_of(s: &Vec<u64>) -> (r: u64)
    requires
        s@.len() > 0,
    ensures
        r == mean_spec(s@),
{
    let mut sum: u128 = 0;
    let mut i: usize = 0;
    while i < s.len()
        invariant
            0 <= i <= s@.len(),
            sum == sum_of(s@.subrange(0, i as int)),
        decreases s@.len() - i,
    {
        proof {
            lemma_sum_bound(s@.subrange(0, i as int));
            assert(i * NANOS_MAX <= 0x1_0000_0000_0000_0000 * NANOS_MAX) by (nonlinear_arith)
                requires
                    i <= 0xffff_ffff_ffff_ffff,
            ;
            assert(s@.subrange(0, i + 1).drop_last() =~= s@.subrange(0, i as int));
        }
        sum = sum + s[i] as u128;
        i += 1;
    }
    proof {
        assert(s@.subrange(0, i as int) =~= s@);
        lemma_mean_bound(s@);
    }
    (sum / s.len() as u128) as u64
}

/// Smallest sample of a non-empty buffer.
pub fn min_of(s: &Vec<u64>) -> (r: u64)
    requires
        s@.len() > 0,
    ensures
        s@.contains(r),
        forall|i: int| 0 <= i < s@.len() ==> r <= s@[i],
{
    let mut k: usize = 0;
    let mut i: usize = 1;
    while i < s.len()
        invariant
            1 <= i <= s@.len(),
            k < i,
            forall|j: int| 0 <= j < i ==> s@[k as int] <= s@[j],
        decreases s@.len() - i,
    {
        if s[i] < s[k] {
            k = i;
        }
        i += 1;
    }
    s[k]
}

/// Largest sample of a non-empty buffer.
pub fn max_of(s: &Vec<u64>) -> (r: u64)
    requires
        s@.len() > 0,
    ensures
        s@.contains(r),
        forall|i: int| 0 <= i < s@.len() ==> s@[i] <= r,
{
    let mut k: usize = 0;
    let mut i: usize = 1;
    while i < s.len()
        invariant
            1 <= i <= s@.len(),
            k < i,
            forall|j: int| 0 <= j < i ==> s@[j] <= s@[k as int],
        decreases s@.len() - i,
    {
        if s[i] > s[k] {
            k = i;
        }
        i += 1;
    }
    s[k]
}

proof fn lemma_ascending_total()
    ensures
        total_ordering(ascending()),
{
}

/// A copy of the buffer sorted ascending.
pub fn sorted_copy(s: &Vec<u64>) -> (t: Vec<u64>)
    ensures
        t@ == sorted_of(s@),
{
    let mut t: Vec<u64> = Vec::new();
    let mut i: usize = 0;
    while i < s.len()
        invariant
            0 <= i <= s@.len(),
            t@.len() == i,
            sorted_by(t@, ascending()),
            t@.to_multiset() == s@.subrange(0, i as int).to_multiset(),
        decreases s@.len() - i,
    {
        let x = s[i];
        let mut j: usize = 0;
        while j < t.len() && t[j] <= x
            invariant
                0 <= j <= t@.len(),
                forall|k: int| 0 <= k < j ==> t@[k] <= x,
            decreases t@.len() - j,
        {
            j += 1;
        }
        let ghost before = t@;
        t.insert(j, x);
        proof {
            assert(forall|k: int| j <= k < before.len() ==> x < before[k]) by {
                assert forall|k: int| j <= k < before.len() implies x < before[k] by {
                    assert(ascending()(before[j as int], before[k]));
                }
            }
            assert forall|a: int, b: int| 0 <= a < b < t@.len() implies #[trigger] ascending()(
                t@[a],
                t@[b],
            ) by {
                if b < j {
                    assert(ascending()(before[a], before[b]));
                } else if a > j {
                    assert(ascending()(before[a - 1], before[b - 1]));
                }
            }
            assert(s@.subrange(0, i + 1) =~= s@.subrange(0, i as int).push(x));
        }
        i += 1;
    }
    proof {
        assert(s@.subrange(0, i as int) =~= s@);
        lemma_ascending_total();
        s@.lemma_sort_by_ensures(ascending());
        vstd::seq_lib::lemma_sorted_unique(t@, sorted_of(s@), ascending());
    }
    t
}

/// Median of a non-empty buffer, in nanoseconds rounded down.
pub fn median_of(s: &Vec<u64>) -> (r: u64)
    requires
        s@.len() > 0,
    ensures
        r == median_spec(s@),
{
    let t = sorted_copy(s);
    proof {
        lemma_ascending_total();
        s@.lemma_sort_by_ensures(ascending());
        assert(t@.len() == s@.len()) by {
            assert(t@.to_multiset().len() == s@.to_multiset().len());
        }
    }
    let h = t.len() / 2;
    if t.len() % 2 == 1 {
        t[h]
    } else {
        let a = t[h - 1] as u128;
        let b = t[h] as u128;
        ((a + b) / 2) as u64
    }
}

/// How often `v` occurs in the buffer.
fn count_in(s: &Vec<u64>, v: u64) -> (c: usize)
    ensures
        c == count_of(s@, v),
{
    let mut c: usize = 0;
    let mut j: usize = 0;
    while j < s.len()
        invariant
            0 <= j <= s@.len(),
            c == count_of(s@.subrange(0, j as int), v),
            c <= j,
        decreases s@.len() - j,
    {
        proof {
            assert(s@.subrange(0, j + 1) =~= s@.subrange(0, j as int).push(s@[j as int]));
        }
        if s[j] == v {
            c += 1;
        }
        j += 1;
    }
    proof {
        assert(s@.subrange(0, j as int) =~= s@);
    }
    c
}

/// Most frequent sample of a non-empty buffer; ties go to the smallest value.
pub fn mode_of(s: &Vec<u64>) -> (r: u64)
    requires
        s@.len() > 0,
    ensures
        is_mode(s@, r),
{
    let mut best: u64 = s[0];
    let mut best_count: usize = count_in(s, best);
    let mut i: usize = 1;
    while i < s.len()
        invariant
            1 <= i <= s@.len(),
            best_count == count_of(s@, best),
            best_count > 0,
            forall|k: int|
                0 <= k < i ==> count_of(s@, #[trigger] s@[k]) < best_count || (count_of(s@, s@[k])
                    == best_count && best <= s@[k]),
        decreases s@.len() - i,
    {
        let x = s[i];
        let c = count_in(s, x);
        if c > best_count || (c == best_count && x < best) {
            best = x;
            best_count = c;
        }
        i += 1;
    }
    proof {
        assert forall|v: u64|
            count_of(s@, v) < count_of(s@, best) || (count_of(s@, v) == count_of(s@, best) && best
                <= v) by {
            if count_of(s@, v) > 0 {
                assert(s@.contains(v));
                let k = choose|k: int| 0 <= k < s@.len() && s@[k] == v;
                assert(count_of(s@, s@[k]) < best_count || (count_of(s@, s@[k]) == best_count
                    && best <= s@[k]));
            }
        }
    }
    best
}

proof fn lemma_sq_dev_sum_bound(s: Seq<u64>, mu: int)
    requires
        0 <= mu <= NANOS_MAX,
    ensures
        0 <= sq_dev_sum(s, mu) <= s.len() * (NANOS_MAX * NANOS_MAX),
    decreases s.len(),
{
    if s.len() > 0 {
        lemma_sq_dev_sum_bound(s.drop_last(), mu);
        lemma_sq_dev_bound(s.last(), mu);
        assert((s.len() - 1) * (NANOS_MAX * NANOS_MAX) + NANOS_MAX * NANOS_MAX == s.len() * (
        NANOS_MAX * NANOS_MAX)) by (nonlinear_arith);
    }
}

proof fn lemma_sq_dev_bound(x: u64, mu: int)
    requires
        0 <= mu <= NANOS_MAX,
    ensures
        0 <= sq_dev(x, mu) <= NANOS_MAX * NANOS_MAX,
{
    let d = x - mu;
    assert(0 <= d * d <= NANOS_MAX * NANOS_MAX) by (nonlinear_arith)
        requires
            -NANOS_MAX <= d <= NANOS_MAX,
    ;
}

/// Squared distance of `x` from `mu`.
fn sq_dev_of(x: u64, mu: u64) -> (r: u128)
    ensures
        r == sq_dev(x, mu as int),
{
    let d: u128 = if x >= mu {
        (x - mu) as u128
    } else {
        (mu - x) as u128
    };
    proof {
        assert(d * d == sq_dev(x, mu as int)) by (nonlinear_arith)
            requires
                d == x - mu || d == mu - x,
        ;
        assert(d * d <= NANOS_MAX * NANOS_MAX) by (nonlinear_arith)
            requires
                0 <= d <= NANOS_MAX,
        ;
    }
    d * d
}

/// Variance of a non-empty buffer: the mean squared distance from
/// `mean_of`, in square nanoseconds rounded down.
pub fn variance_of(s: &Vec<u64>) -> (r: u128)
    requires
        s@.len() > 0,
    ensures
        r == variance_spec(s@),
{
    let mu = mean_of(s);
    let n = s.len() as u128;
    let ghost bound: int = NANOS_MAX * NANOS_MAX;
    // The running sum is held as `q * n + rem`, which keeps it in range.
    let mut q: u128 = 0;
    let mut rem: u128 = 0;
    let mut i: usize = 0;
    while i < s.len()
        invariant
            0 <= i <= s@.len(),
            n == s@.len(),
            mu == mean_spec(s@),
            bound == NANOS_MAX * NANOS_MAX,
            q * n + rem == sq_dev_sum(s@.subrange(0, i as int), mu as int),
            rem < n,
            q <= bound,
        decreases s@.len() - i,
    {
        let t = sq_dev_of(s[i], mu);
        let ghost total = sq_dev_sum(s@.subrange(0, i + 1), mu as int);
        proof {
            assert(s@.subrange(0, i + 1).drop_last() =~= s@.subrange(0, i as int));
            lemma_sq_dev_sum_bound(s@.subrange(0, i + 1), mu as int);
            assert(total <= n * bound) by (nonlinear_arith)
                requires
                    total <= (i + 1) * bound,
                    i + 1 <= n,
                    bound >= 0,
            ;
        }
        let tq = t / n;
        let tr = t % n;
        proof {
            assert(tq * n + tr == t) by (nonlinear_arith)
                requires
                    tq == t / n,
                    tr == t % n,
                    n > 0,
            ;
            assert((q + tq) * n + (rem + tr) == total) by (nonlinear_arith)
                requires
                    q * n + rem + tq * n + tr == total,
            ;
            assert(q + tq <= bound) by (nonlinear_arith)
                requires
                    (q + tq) * n + (rem + tr) == total,
                    total <= n * bound,
                    rem + tr >= 0,
                    n > 0,
            ;
        }
        q = q + tq;
        rem = rem + tr;
        if rem >= n {
            proof {
                assert((q + 1) * n + (rem - n) == total) by (nonlinear_arith)
                    requires
                        q * n + rem == total,
                ;
                assert(q + 1 <= bound) by (nonlinear_arith)
                    requires
                        (q + 1) * n + (rem - n) == total,
                        total <= n * bound,
                        rem - n >= 0,
                        n > 0,
                ;
            }
            rem = rem - n;
            q = q + 1;
        }
        i += 1;
    }
    proof {
        assert(s@.subrange(0, i as int) =~= s@);
        let total = sq_dev_sum(s@, mu as int);
        assert(q == total / (n as int)) by (nonlinear_arith)
            requires
                q * n + rem == total,
                0 <= rem < n,
        ;
    }
    q
}

/// Square root of `v`, rounded down.
pub fn floor_sqrt(v: u128) -> (r: u64)
    ensures
        is_floor_sqrt(v as int, r as int),
{
    let mut lo: u128 = 0;
    let mut hi: u128 = 0x1_0000_0000_0000_0000;
    while hi - lo > 1
        invariant
            lo < hi <= 0x1_0000_0000_0000_0000,
            lo * lo <= v,
            v < hi * hi,
        decreases hi - lo,
    {
        let mid = lo + (hi - lo) / 2;
        proof {
            assert(mid * mid <= 0xffff_ffff_ffff_ffff * 0xffff_ffff_ffff_ffffu128) by (
            nonlinear_arith)
                requires
                    mid < 0x1_0000_0000_0000_0000,
            ;
        }
        if mid * mid <= v {
            lo = mid;
        } else {
            hi = mid;
        }
    }
    assert(hi == lo + 1);
    lo as u64
}

/// Standard deviation of a non-empty buffer: the square root of
/// `variance_of`, in nanoseconds rounded down.
pub fn std_dev_of(s: &Vec<u64>) -> (r: u64)
    requires
        s@.len() > 0,
    ensures
        is_floor_sqrt(variance_spec(s@), r as int),
{
    let v = variance_of(s);
    floor_sqrt(v)
}

proof fn lemma_constant_sums(s: Seq<u64>, c: u64)
    requires
        forall|i: int| 0 <= i < s.len() ==> s[i] == c,
    ensures
        sum_of(s) == s.len() * c,
        sq_dev_sum(s, c as int) == 0,
    decreases s.len(),
{
    if s.len() > 0 {
        assert forall|i: int| 0 <= i < s.drop_last().len() implies s.drop_last()[i] == c by {
            assert(s[i] == c);
        }
        lemma_constant_sums(s.drop_last(), c);
        assert((s.len() - 1) * c + c == s.len() * c) by (nonlinear_arith);
        assert(s[s.len() - 1] == c);
        assert(sq_dev(s.last(), c as int) == 0);
    }
}

/// A buffer whose samples are all equal has variance zero and standard
/// deviation zero.
pub proof fn lemma_constant_spread_zero(s: Seq<u64>, r: u64)
    requires
        s.len() > 0,
        forall|i: int, j: int| 0 <= i < s.len() && 0 <= j < s.len() ==> s[i] == s[j],
        is_floor_sqrt(variance_spec(s), r as int),
    ensures
        variance_spec(s) == 0,
        r == 0,
{
    let c = s[0];
    lemma_constant_sums(s, c);
    let n = s.len() as int;
    assert(n * c / n == c) by (nonlinear_arith)
        requires
            n > 0,
    ;
    assert(mean_spec(s) == c);
    assert(r * r <= 0 ==> r == 0) by (nonlinear_arith);
}

} // verus!
