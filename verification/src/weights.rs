//! Sequences of non-negative weights: their sums, and where a target falls
//! among their cumulative sums.

use vstd::prelude::*;

verus! {

/// Sum of the first `k` weights of `w`. Counts beyond the length of `w` give
/// the sum of all weights, counts below one give zero.
pub open spec fn sum_to(w: Seq<nat>, k: int) -> nat
    decreases k,
{
    if k <= 0 {
        0
    } else if k > w.len() {
        sum_to(w, k - 1)
    } else {
        sum_to(w, k - 1) + w[k - 1]
    }
}

/// Sum of all weights of `w`.
pub open spec fn total(w: Seq<nat>) -> nat {
    sum_to(w, w.len() as int)
}

/// `w`, followed by as many zero weights as it takes to reach length `n`.
pub open spec fn padded(w: Seq<nat>, n: int) -> Seq<nat> {
    if n <= w.len() {
        w
    } else {
        w + Seq::new((n - w.len()) as nat, |i: int| 0nat)
    }
}

/// `w` with the weight at `i` changed by `delta`, after padding `w` with
/// zero weights so that it has an index `i`.
pub open spec fn adjusted(w: Seq<nat>, i: int, delta: int) -> Seq<nat> {
    padded(w, i + 1).update(i, (padded(w, i + 1)[i] + delta) as nat)
}

/// Cumulative weight through index `i`: the sum of the weights at `0..=i`.
pub open spec fn prefix(w: Seq<nat>, i: int) -> nat {
    sum_to(w, i + 1)
}

/// How many of the first `k` cumulative weights of `w` do not exceed
/// `target`.
pub open spec fn count_within(w: Seq<nat>, target: nat, k: int) -> nat
    decreases k,
{
    if k <= 0 {
        0
    } else if prefix(w, k - 1) <= target {
        count_within(w, target, k - 1) + 1
    } else {
        count_within(w, target, k - 1)
    }
}

/// How many cumulative weights of `w` do not exceed `target`. Cumulative
/// weights never decrease, so these are the leading ones.
pub open spec fn slots_within(w: Seq<nat>, target: nat) -> nat {
    count_within(w, target, w.len() as int)
}

/// Where `target` falls among the cumulative weights of `w`: `Ok(i)` where
/// index `i` is the last one whose cumulative weight is exactly `target`,
/// and otherwise `Err(i)` for the first index `i` whose cumulative weight
/// exceeds `target`, or the number of weights if there is none.
pub open spec fn locate(w: Seq<nat>, target: nat) -> Result<usize, usize> {
    let k = slots_within(w, target);
    if k > 0 && prefix(w, k - 1) == target {
        Ok((k - 1) as usize)
    } else {
        Err(k as usize)
    }
}

/// Sums grow with the number of weights summed.
pub proof fn lemma_sum_to_monotone(w: Seq<nat>, a: int, b: int)
    requires
        a <= b,
    ensures
        sum_to(w, a) <= sum_to(w, b),
    decreases b - a,
{
    if a < b {
        lemma_sum_to_monotone(w, a, b - 1);
    }
}

/// Summing beyond the last weight adds nothing.
pub proof fn lemma_sum_to_beyond(w: Seq<nat>, k: int)
    requires
        k >= w.len(),
    ensures
        sum_to(w, k) == total(w),
    decreases k,
{
    if k > w.len() {
        lemma_sum_to_beyond(w, k - 1);
    }
}

/// A zero weight at the end changes no sum.
pub proof fn lemma_sum_to_push_zero(w: Seq<nat>, k: int)
    ensures
        sum_to(w.push(0), k) == sum_to(w, k),
    decreases k,
{
    if k > 0 {
        lemma_sum_to_push_zero(w, k - 1);
    }
}

/// Changing the weight at `i` moves exactly the sums that include it.
pub proof fn lemma_sum_to_update(w: Seq<nat>, i: int, x: nat, k: int)
    requires
        0 <= i < w.len(),
    ensures
        sum_to(w.update(i, x), k) == sum_to(w, k) + (if i < k {
            x - w[i]
        } else {
            0
        }),
    decreases k,
{
    if k > 0 {
        lemma_sum_to_update(w, i, x, k - 1);
    }
}

/// Padding with zero weights changes no sum.
pub proof fn lemma_sum_to_padded(w: Seq<nat>, n: int, k: int)
    ensures
        sum_to(padded(w, n), k) == sum_to(w, k),
    decreases k,
{
    if k > 0 {
        lemma_sum_to_padded(w, n, k - 1);
    }
}

/// Changing one weight changes the sum of all weights by as much.
pub proof fn lemma_total_adjusted(w: Seq<nat>, i: int, delta: int)
    requires
        0 <= i,
        padded(w, i + 1)[i] + delta >= 0,
    ensures
        total(adjusted(w, i, delta)) == total(w) + delta,
{
    let p = padded(w, i + 1);
    lemma_sum_to_padded(w, i + 1, p.len() as int);
    lemma_sum_to_beyond(w, p.len() as int);
    lemma_sum_to_update(p, i, (p[i] + delta) as nat, p.len() as int);
}

/// A new weight at `k` adds to exactly the sums that reach beyond `k`.
pub proof fn lemma_sum_to_insert(w: Seq<nat>, k: int, x: nat, j: int)
    requires
        0 <= k <= w.len(),
    ensures
        sum_to(w.insert(k, x), j) == (if j <= k {
            sum_to(w, j)
        } else {
            sum_to(w, j - 1) + x
        }),
    decreases j,
{
    if j > 0 {
        lemma_sum_to_insert(w, k, x, j - 1);
        if j > k + 1 {
            assert(sum_to(w, j - 1) == sum_to(w, j - 2) + (if j - 1 <= w.len() {
                w[j - 2]
            } else {
                0
            }));
        }
    }
}

/// Taking out the weight at `k` takes it from exactly the sums that reached
/// beyond `k`.
pub proof fn lemma_sum_to_remove(w: Seq<nat>, k: int, j: int)
    requires
        0 <= k < w.len(),
    ensures
        sum_to(w.remove(k), j) == (if j <= k {
            sum_to(w, j) as int
        } else {
            sum_to(w, j + 1) - w[k]
        }),
    decreases j,
{
    if j > 0 {
        lemma_sum_to_remove(w, k, j - 1);
        if j > k {
            assert(sum_to(w, j + 1) == sum_to(w, j) + (if j < w.len() {
                w[j]
            } else {
                0
            }));
            assert(sum_to(w, j) == sum_to(w, j - 1) + (if j <= w.len() {
                w[j - 1]
            } else {
                0
            }));
        }
    }
}

/// Dropping weights that are all zero changes no sum.
pub proof fn lemma_sum_to_take(w: Seq<nat>, len: int, k: int)
    requires
        0 <= len <= w.len(),
        forall|i: int| len <= i < w.len() ==> w[i] == 0,
    ensures
        sum_to(w.take(len), k) == sum_to(w, k),
    decreases k,
{
    if k > 0 {
        lemma_sum_to_take(w, len, k - 1);
    }
}

/// The cumulative weights that do not exceed `target` are exactly the first
/// `count_within(w, target, k)` of the first `k`.
pub proof fn lemma_count_within(w: Seq<nat>, target: nat, k: int)
    requires
        0 <= k,
    ensures
        0 <= count_within(w, target, k) <= k,
        forall|i: int|
            0 <= i < k ==> (#[trigger] prefix(w, i) <= target <==> i < count_within(w, target, k)),
    decreases k,
{
    if k > 0 {
        lemma_count_within(w, target, k - 1);
        let c = count_within(w, target, k - 1);
        if prefix(w, k - 1) <= target {
            assert forall|i: int| 0 <= i < k - 1 implies #[trigger] prefix(w, i) <= target by {
                lemma_sum_to_monotone(w, i + 1, k);
            }
            if c < k - 1 {
                assert(!(prefix(w, c as int) <= target));
            }
        }
    }
}

/// `locate` gives `Ok(i)` exactly where index `i` is the last one with
/// cumulative weight `target`.
pub proof fn lemma_locate_exact(w: Seq<nat>, target: nat, i: int)
    requires
        0 <= i < w.len() <= usize::MAX,
        prefix(w, i) == target,
        i + 1 < w.len() ==> prefix(w, i + 1) > target,
    ensures
        locate(w, target) == Ok::<usize, usize>(i as usize),
        slots_within(w, target) == i + 1,
{
    lemma_count_within(w, target, w.len() as int);
    let k = slots_within(w, target);
    if i + 1 < k {
        assert(prefix(w, i + 1) <= target);
    }
    assert(prefix(w, i) <= target);
}

/// `locate` gives `Err(i)` exactly where the cumulative weights before
/// index `i` stay below `target` and those from `i` on exceed it.
pub proof fn lemma_locate_inexact(w: Seq<nat>, target: nat, i: int)
    requires
        0 <= i <= w.len() <= usize::MAX,
        i > 0 ==> prefix(w, i - 1) < target,
        i < w.len() ==> prefix(w, i) > target,
    ensures
        locate(w, target) == Err::<usize, usize>(i as usize),
        slots_within(w, target) == i,
{
    lemma_count_within(w, target, w.len() as int);
    let k = slots_within(w, target);
    if i < k {
        assert(prefix(w, i) <= target);
    }
    if i > 0 {
        assert(prefix(w, i - 1) <= target);
    }
}

/// What `locate` gives: `Ok(i)` only where index `i` is the last with
/// cumulative weight `target`, and `Err(i)` only where the cumulative
/// weights before index `i` stay below `target` and those from `i` on
/// exceed it.
pub proof fn lemma_locate(w: Seq<nat>, target: nat)
    requires
        w.len() <= usize::MAX,
    ensures
        match locate(w, target) {
            Ok(i) => {
                &&& i < w.len()
                &&& prefix(w, i as int) == target
                &&& i + 1 < w.len() ==> prefix(w, i + 1) > target
            },
            Err(i) => {
                &&& i <= w.len()
                &&& i > 0 ==> prefix(w, i - 1) < target
                &&& i < w.len() ==> prefix(w, i as int) > target
            },
        },
{
    lemma_count_within(w, target, w.len() as int);
    let k = slots_within(w, target) as int;
    if k > 0 {
        assert(prefix(w, k - 1) <= target);
    }
    if k < w.len() {
        assert(!(prefix(w, k) <= target));
    }
}

/// Target zero falls before the first weight, unless that weight is zero.
pub proof fn lemma_locate_zero(w: Seq<nat>)
    requires
        w.len() <= usize::MAX,
        w.len() > 0 ==> w[0] > 0,
    ensures
        locate(w, 0) == Err::<usize, usize>(0),
{
    lemma_locate_inexact(w, 0, 0);
}

/// Looking up the cumulative weight through an index leads back to that
/// index, provided that the weight after it, if there is one, is not zero.
pub proof fn lemma_locate_prefix(w: Seq<nat>, i: int)
    requires
        0 <= i < w.len() <= usize::MAX,
        i + 1 < w.len() ==> w[i + 1] > 0,
    ensures
        locate(w, prefix(w, i)) == Ok::<usize, usize>(i as usize),
{
    lemma_locate_exact(w, prefix(w, i), i);
}

} // verus!
