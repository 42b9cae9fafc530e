//! Splitting `total` work items into at most `workers` contiguous ranges of
//! near-equal size.

use vstd::prelude::*;

verus! {

/// Lower bound of the `k`-th range when `n` items are split over `b` workers:
/// the first `n % b` ranges hold one item more than the others.
pub open spec fn part_lo(n: nat, b: nat, k: nat) -> nat
    recommends
        b > 0,
{
    k * (n / b) + if k < n % b { k } else { n % b }
}

/// Upper bound (exclusive) of the `k`-th range.
pub open spec fn part_hi(n: nat, b: nat, k: nat) -> nat
    recommends
        b > 0,
{
    part_lo(n, b, k + 1)
}

/// Number of non-empty ranges: every worker gets work unless there are
/// fewer items than workers.
pub open spec fn part_count(n: nat, b: nat) -> nat {
    if n < b { n } else { b }
}

/// The ranges are exactly the non-empty ranges `[part_lo(k), part_hi(k))`,
/// in order.
pub open spec fn is_partition_of(r: Seq<(usize, usize)>, n: nat, b: nat) -> bool {
    &&& r.len() == part_count(n, b)
    &&& forall|k: int|
        0 <= k < r.len() ==> #[trigger] r[k].0 as nat == part_lo(n, b, k as nat) && r[k].1 as nat
            == part_hi(n, b, k as nat)
}

proof fn lemma_lo_step(n: nat, b: nat, k: nat)
    requires
        b > 0,
    ensures
        part_lo(n, b, k + 1) == part_lo(n, b, k) + n / b + if k < n % b { 1nat } else { 0nat },
{
    let q = n / b;
    assert((k + 1) * q == k * q + q) by (nonlinear_arith);
}

proof fn lemma_lo_monotone(n: nat, b: nat, j: nat, k: nat)
    requires
        b > 0,
        j <= k,
    ensures
        part_lo(n, b, j) <= part_lo(n, b, k),
    decreases k - j,
{
    if j < k {
        lemma_lo_step(n, b, (k - 1) as nat);
        lemma_lo_monotone(n, b, j, (k - 1) as nat);
    }
}

proof fn lemma_lo_end(n: nat, b: nat)
    requires
        b > 0,
    ensures
        part_lo(n, b, part_count(n, b)) == n,
{
    vstd::arithmetic::div_mod::lemma_fundamental_div_mod(n as int, b as int);
    if n < b {
        vstd::arithmetic::div_mod::lemma_basic_div(n as int, b as int);
        vstd::arithmetic::div_mod::lemma_small_mod(n, b);
    }
    assert(b * (n / b) == (n / b) * b) by (nonlinear_arith);
}

/// Ranges below the count are non-empty; sizes are `n / b` or `n / b + 1`.
proof fn lemma_part_size(n: nat, b: nat, k: nat)
    requires
        b > 0,
        k < part_count(n, b),
    ensures
        part_hi(n, b, k) == part_lo(n, b, k) + n / b + if k < n % b { 1nat } else { 0nat },
        part_hi(n, b, k) > part_lo(n, b, k),
        part_hi(n, b, k) <= n,
{
    lemma_lo_step(n, b, k);
    lemma_lo_end(n, b);
    lemma_lo_monotone(n, b, k + 1, part_count(n, b));
    if n < b {
        vstd::arithmetic::div_mod::lemma_small_mod(n, b);
    } else {
        vstd::arithmetic::div_mod::lemma_div_non_zero(n as int, b as int);
    }
}

/// Splits `total` items over at most `workers` workers. The `k`-th range
/// starts at `k * (total / workers) + min(k, total % workers)`; empty ranges
/// (when `total < workers`) are left out.
pub fn partition(total: usize, workers: usize) -> (r: Vec<(usize, usize)>)
    requires
        workers > 0,
    ensures
        is_partition_of(r@, total as nat, workers as nat),
{
    let q: usize = total / workers;
    let rem: usize = total % workers;
    let count: usize = if total < workers { total } else { workers };
    let mut r: Vec<(usize, usize)> = Vec::new();
    let mut lo: usize = 0;
    let mut k: usize = 0;
    while k < count
        invariant
            q == total / workers,
            rem == total % workers,
            count == part_count(total as nat, workers as nat),
            workers > 0,
            k <= count,
            lo == part_lo(total as nat, workers as nat, k as nat),
            r@.len() == k,
            forall|j: int|
                0 <= j < k ==> #[trigger] r@[j].0 as nat == part_lo(
                    total as nat,
                    workers as nat,
                    j as nat,
                ) && r@[j].1 as nat == part_hi(total as nat, workers as nat, j as nat),
        decreases count - k,
    {
        proof {
            lemma_part_size(total as nat, workers as nat, k as nat);
        }
        let extra: usize = if k < rem { 1 } else { 0 };
        let hi: usize = lo + q + extra;
        r.push((lo, hi));
        assert(r@[k as int] == (lo, hi));
        lo = hi;
        k = k + 1;
    }
    r
}

/// Item `i` lies in the half-open range `p`.
pub open spec fn in_range(p: (usize, usize), i: nat) -> bool {
    p.0 <= i < p.1
}

/// Item `i` lies in some range of `r`.
pub open spec fn covered(r: Seq<(usize, usize)>, i: nat) -> bool {
    exists|k: int| 0 <= k < r.len() && #[trigger] r[k].0 <= i < r[k].1
}

/// Coverage: every item index below `total` lies in exactly one of the
/// ranges that `partition` returns, and the sizes of any two ranges differ by
/// at most one.
pub proof fn lemma_partition_covers(r: Seq<(usize, usize)>, total: nat, workers: nat)
    requires
        workers > 0,
        is_partition_of(r, total, workers),
    ensures
        forall|i: nat| i < total ==> #[trigger] covered(r, i),
        forall|i: nat, j: int, k: int|
            0 <= j < r.len() && 0 <= k < r.len() && #[trigger] in_range(r[j], i)
                && #[trigger] in_range(r[k], i) ==> j == k,
        forall|j: int, k: int|
            0 <= j < r.len() && 0 <= k < r.len() ==> (#[trigger] r[j]).1 - r[j].0 <= (
            #[trigger] r[k]).1 - r[k].0 + 1,
{
    assert forall|i: nat| i < total implies #[trigger] covered(r, i) by {
        lemma_lo_end(total, workers);
        let k = lemma_find_range(total, workers, i, 0, part_count(total, workers));
        assert(r[k as int].0 <= i < r[k as int].1);
    }
    assert forall|i: nat, j: int, k: int|
        0 <= j < r.len() && 0 <= k < r.len() && #[trigger] in_range(r[j], i)
            && #[trigger] in_range(r[k], i) implies j == k by {
        if j < k {
            lemma_lo_monotone(total, workers, (j + 1) as nat, k as nat);
        } else if k < j {
            lemma_lo_monotone(total, workers, (k + 1) as nat, j as nat);
        }
    }
    assert forall|j: int, k: int| 0 <= j < r.len() && 0 <= k < r.len() implies (
    #[trigger] r[j]).1 - r[j].0 <= (#[trigger] r[k]).1 - r[k].0 + 1 by {
        lemma_part_size(total, workers, j as nat);
        lemma_part_size(total, workers, k as nat);
    }
}

proof fn lemma_find_range(n: nat, b: nat, i: nat, lo_k: nat, hi_k: nat) -> (k: nat)
    requires
        b > 0,
        lo_k < hi_k <= part_count(n, b),
        part_lo(n, b, lo_k) <= i < part_lo(n, b, hi_k),
    ensures
        lo_k <= k < hi_k,
        part_lo(n, b, k) <= i < part_hi(n, b, k),
    decreases hi_k - lo_k,
{
    if i < part_lo(n, b, lo_k + 1) {
        lo_k
    } else {
        lemma_find_range(n, b, i, lo_k + 1, hi_k)
    }
}

} // verus!
