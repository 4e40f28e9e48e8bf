//! An order-statistics index over a sequence of non-negative weights.
//!
//! The index is a binary indexed tree stored in a flat vector. Slot `j` of the
//! vector holds the sum of the weights in `[j, up(j))`, where `up(j)` sets the
//! lowest clear bit of `j`. A query walks upwards from its start and so adds
//! up a suffix of the weights; an update walks downwards through the slots
//! whose range covers the updated position.

use crate::weights::{
    adjusted, lemma_locate_exact, lemma_locate_inexact, lemma_sum_to_beyond,
    lemma_sum_to_monotone, lemma_sum_to_push_zero, lemma_sum_to_take, lemma_sum_to_update, locate,
    padded, prefix, slots_within, sum_to, total,
};
use vstd::prelude::*;

verus! {

/// Successor of slot `j` on the way up: `j` with its lowest clear bit set.
spec fn up(j: usize) -> usize {
    j | ((j + 1) as usize)
}

/// Predecessor of slot `j` on the way down: `j` with its trailing ones
/// cleared, less one. This is `-1` when there is no predecessor.
spec fn down(j: usize) -> int {
    (j & ((j + 1) as usize)) - 1
}

/// The end of the range of weights that slot `j` accounts for in a tree of
/// `n` slots.
spec fn reach(j: usize, n: nat) -> int {
    if up(j) < n {
        up(j) as int
    } else {
        n as int
    }
}

/// The weights covered by slot `j` of a tree over `w`, summed.
spec fn span_sum(w: Seq<nat>, j: int) -> int {
    sum_to(w, reach(j as usize, w.len())) - sum_to(w, j)
}

/// The way up leads to a later slot.
proof fn lemma_up_grows(j: usize)
    requires
        j < usize::MAX,
    ensures
        up(j) > j,
{
    let k = (j + 1) as usize;
    assert(k != 0 && k == (j + 1) as usize ==> (j | k) > j) by (bit_vector);
}

/// Slots strictly between a slot and its predecessor end at or before it.
proof fn lemma_between_ends_early(c: usize, j: usize)
    requires
        c < usize::MAX,
        down(c) < j < c,
    ensures
        up(j) <= c,
{
    let c1 = (c + 1) as usize;
    let j1 = (j + 1) as usize;
    assert(c1 != 0 && j1 != 0 && c1 == (c + 1) as usize && j1 == (j + 1) as usize && j < c && j
        >= (c & c1) ==> (j | j1) <= c) by (bit_vector);
}

/// The predecessor of a slot reaches at least as far as the slot itself.
proof fn lemma_down_reaches_further(c: usize)
    requires
        c < usize::MAX,
        down(c) >= 0,
    ensures
        up(down(c) as usize) >= up(c),
{
    let c1 = (c + 1) as usize;
    let m = c & c1;
    let d = (m - 1) as usize;
    assert(m <= c) by (bit_vector)
        requires
            m == c & c1,
    ;
    let d1 = (d + 1) as usize;
    assert(c1 != 0 && c1 == (c + 1) as usize && m == (c & c1) && m != 0 && d == (m - 1) as usize
        && d1 == m ==> (d | d1) >= (c | c1)) by (bit_vector);
}

/// Whether `m` is a run of ones from the lowest bit up: one less than a
/// power of two.
spec fn is_mask(m: usize) -> bool {
    m & (m >> 1) == (m >> 1)
}

/// A run of ones below `n` can take one more one, and is then still a run
/// of ones.
proof fn lemma_mask_grows(m: usize, n: usize)
    requires
        is_mask(m),
        m < n,
    ensures
        ((m << 1usize) | 1usize) > m,
        is_mask((m << 1usize) | 1usize),
{
    let d: usize = (m << 1usize) | 1usize;
    assert(m & (m >> 1) == (m >> 1) && m < n && d == ((m << 1usize) | 1usize) ==> d > m && d & (d
        >> 1) == (d >> 1)) by (bit_vector);
}

/// Zero is the empty run of ones.
proof fn lemma_mask_zero()
    ensures
        is_mask(0),
{
    assert(0usize & (0usize >> 1) == (0usize >> 1)) by (bit_vector);
}

/// A run of ones has all of its own bits.
proof fn lemma_mask_covers_itself(m: usize)
    ensures
        m & m == m,
{
    assert(m & m == m) by (bit_vector);
}

/// A slot that ends in the run of ones `mask`, and the slot half a run
/// before it: that slot reaches exactly up to the first, and ends in the
/// shorter run itself.
proof fn lemma_mask_halves(end: usize, mask: usize)
    requires
        is_mask(mask),
        mask > 0,
        end & mask == mask,
    ensures
        mask == (mask >> 1) + (mask >> 1) + 1,
        mask <= end,
        is_mask(mask >> 1),
        end & (mask >> 1) == (mask >> 1),
        ((end - ((mask >> 1) + 1)) as usize) & (mask >> 1) == (mask >> 1),
        up((end - ((mask >> 1) + 1)) as usize) == end,
        end - ((mask >> 1) + 1) < usize::MAX,
{
    let half = mask >> 1;
    assert(mask & (mask >> 1) == (mask >> 1) && mask > 0 && end & mask == mask ==> mask == (mask
        >> 1) + (mask >> 1) + 1 && mask <= end && (mask >> 1) & ((mask >> 1) >> 1) == ((mask >> 1)
        >> 1) && end & (mask >> 1) == (mask >> 1)) by (bit_vector);
    let step = (half + 1) as usize;
    let j = (end - step) as usize;
    let j1 = (j + 1) as usize;
    assert(mask & (mask >> 1) == (mask >> 1) && mask > 0 && end & mask == mask && half == mask >> 1
        && step == half + 1 && j == end - step && j1 == j + 1 ==> j & half == half && (j | j1)
        == end) by (bit_vector);
}

/// An index that maps an offset into a concatenation of weighted items to the
/// item that holds it.
pub struct Fenwick {
    tree: Vec<usize>,
    weights: Ghost<Seq<nat>>,
}

impl View for Fenwick {
    type V = Seq<nat>;

    /// The weights that the index tracks, one per slot.
    closed spec fn view(&self) -> Seq<nat> {
        self.weights@
    }
}

impl Fenwick {
    /// Every slot of the tree holds the sum of the weights in its range, and
    /// the sum of all weights fits a machine word.
    pub closed spec fn wf(&self) -> bool {
        &&& self.tree@.len() == self.weights@.len()
        &&& total(self.weights@) <= usize::MAX
        &&& forall|j: int|
            0 <= j < self.tree@.len() ==> #[trigger] self.tree@[j] == span_sum(self.weights@, j)
    }

    /// The weights of a well-formed index add up to a machine word, and
    /// there are no more of them than a machine word counts.
    pub proof fn lemma_bounded(&self)
        requires
            self.wf(),
        ensures
            total(self@) <= usize::MAX,
            self@.len() <= usize::MAX,
    {
        assert(self.tree.len() == self.tree@.len());
    }

    /// An index without slots.
    pub fn new() -> (f: Self)
        ensures
            f.wf(),
            f@ == Seq::<nat>::empty(),
    {
        Fenwick { tree: Vec::new(), weights: Ghost(Seq::empty()) }
    }

    fn next_down(i: usize) -> (r: usize)
        ensures
            i < usize::MAX ==> -1 <= down(i) < i && (if down(i) < 0 {
                r == usize::MAX
            } else {
                r == down(i)
            }),
    {
        proof {
            if i < usize::MAX {
                let k = (i + 1) as usize;
                assert((i & k) <= i) by (bit_vector);
            }
        }
        (i & i.wrapping_add(1)).wrapping_sub(1)
    }

    fn next_up(i: usize) -> (r: usize)
        ensures
            i < usize::MAX ==> r == up(i) && r > i,
    {
        proof {
            if i < usize::MAX {
                lemma_up_grows(i);
            }
        }
        i | i.wrapping_add(1)
    }

    /// Number of slots.
    pub fn slots(&self) -> (n: usize)
        requires
            self.wf(),
        ensures
            n == self@.len(),
    {
        self.tree.len()
    }

    /// Extends the index with zero weights until it has a slot `idx`.
    fn grow(&mut self, idx: usize)
        requires
            old(self).wf(),
            idx < usize::MAX,
        ensures
            final(self).wf(),
            final(self)@ == padded(old(self)@, idx + 1),
            final(self)@.len() > idx,
            total(final(self)@) == total(old(self)@),
    {
        let ghost w0 = self.weights@;
        while idx >= self.tree.len()
            invariant
                self.wf(),
                idx < usize::MAX,
                self.weights@ == padded(w0, self.tree.len() as int),
                total(self.weights@) == total(w0),
                self.tree.len() == w0.len() || self.tree.len() <= idx + 1,
                self.tree.len() >= w0.len(),
            decreases idx + 1 - self.tree.len(),
        {
            let ghost w = self.weights@;
            let ghost t = self.tree@;
            let ghost n = t.len() as int;
            self.tree.push(0);
            proof {
                self.weights@ = w.push(0);
                let w2 = w.push(0);
                assert(w2 =~= padded(w0, n + 1));
                lemma_sum_to_push_zero(w, n);
                lemma_sum_to_push_zero(w, n + 1);
                lemma_up_grows(n as usize);
                assert forall|j: int| 0 <= j < n + 1 implies #[trigger] self.tree@[j] == span_sum(
                    w2,
                    j,
                ) by {
                    lemma_sum_to_push_zero(w, j);
                    lemma_sum_to_push_zero(w, up(j as usize) as int);
                    if j < n {
                        assert(t[j] == span_sum(w, j));
                        if up(j as usize) >= n {
                            lemma_sum_to_beyond(w, up(j as usize) as int);
                        }
                    }
                }
            }
        }
    }

    /// Changes the weight at `idx` by `value`, upwards if `raise` is set and
    /// downwards otherwise, after extending the index to hold a slot `idx`.
    fn adjust(&mut self, idx: usize, value: usize, raise: bool)
        requires
            old(self).wf(),
            idx < usize::MAX,
            raise ==> total(old(self)@) + value <= usize::MAX,
            !raise ==> value <= padded(old(self)@, idx + 1)[idx as int],
        ensures
            final(self).wf(),
            final(self)@ == adjusted(
                old(self)@,
                idx as int,
                if raise {
                    value as int
                } else {
                    -(value as int)
                },
            ),
    {
        let ghost delta = if raise { value as int } else { -(value as int) };
        self.grow(idx);
        let ghost w1 = self.weights@;
        let ghost w2 = adjusted(w1, idx as int, delta);
        let ghost n = w1.len();
        let mut cur = idx;
        proof {
            lemma_up_grows(idx);
            assert(n == self.tree.len());
            assert forall|j: int| idx < j < n implies span_sum(w2, j) == span_sum(w1, j) by {
                lemma_up_grows(j as usize);
                lemma_sum_to_update(w1, idx as int, w2[idx as int], reach(j as usize, n));
                lemma_sum_to_update(w1, idx as int, w2[idx as int], j);
            }
        }
        while cur != usize::MAX
            invariant
                self.tree.len() == n,
                w1.len() == n,
                idx < n,
                w2 == w1.update(idx as int, (w1[idx as int] + delta) as nat),
                delta == (if raise { value as int } else { -(value as int) }),
                w1[idx as int] + delta >= 0,
                raise ==> total(w1) + value <= usize::MAX,
                cur == usize::MAX || cur <= idx,
                cur != usize::MAX ==> idx < up(cur),
                forall|j: int|
                    0 <= j < n ==> #[trigger] self.tree@[j] == (if cur == usize::MAX || j > cur {
                        span_sum(w2, j)
                    } else {
                        span_sum(w1, j)
                    }),
            decreases (if cur == usize::MAX { 0 } else { cur + 1 }),
        {
            let ghost t = self.tree@;
            proof {
                lemma_sum_to_monotone(w1, reach(cur, n), n as int);
                lemma_sum_to_monotone(w2, cur as int, reach(cur, n));
                lemma_sum_to_update(w1, idx as int, w2[idx as int], reach(cur, n));
                lemma_sum_to_update(w1, idx as int, w2[idx as int], cur as int);
                assert(t[cur as int] == span_sum(w1, cur as int));
            }
            let slot = self.tree[cur];
            self.tree.set(cur, if raise { slot + value } else { slot - value });
            let next = Self::next_down(cur);
            proof {
                if down(cur) >= 0 {
                    lemma_down_reaches_further(cur);
                }
                assert forall|j: int| 0 <= j < n implies #[trigger] self.tree@[j] == (if next
                    == usize::MAX || j > next {
                    span_sum(w2, j)
                } else {
                    span_sum(w1, j)
                }) by {
                    if j < cur && j > down(cur) {
                        lemma_between_ends_early(cur, j as usize);
                        lemma_sum_to_update(w1, idx as int, w2[idx as int], reach(j as usize, n));
                        lemma_sum_to_update(w1, idx as int, w2[idx as int], j);
                        assert(t[j] == span_sum(w1, j));
                    } else if j != cur {
                        assert(self.tree@[j] == t[j]);
                    }
                }
            }
            cur = next;
        }
        proof {
            self.weights@ = w2;
            lemma_sum_to_update(w1, idx as int, w2[idx as int], n as int);
        }
    }

    /// Adds `value` to the weight at `idx`. Where the index has no slot
    /// `idx` yet, it is first extended with zero weights up to and including
    /// that slot.
    pub fn add(&mut self, idx: usize, value: usize)
        requires
            old(self).wf(),
            idx < usize::MAX,
            total(old(self)@) + value <= usize::MAX,
        ensures
            final(self).wf(),
            final(self)@ == adjusted(old(self)@, idx as int, value as int),
    {
        self.adjust(idx, value, true);
    }

    /// Subtracts `value` from the weight at `idx`, which must be at least
    /// `value`. Where the index has no slot `idx` yet, it is first extended
    /// with zero weights up to and including that slot.
    pub fn sub(&mut self, idx: usize, value: usize)
        requires
            old(self).wf(),
            idx < usize::MAX,
            value <= padded(old(self)@, idx + 1)[idx as int],
        ensures
            final(self).wf(),
            final(self)@ == adjusted(old(self)@, idx as int, -(value as int)),
    {
        self.adjust(idx, value, false);
    }

    /// Drops the slots from `len` on, whose weights must all be zero.
    pub fn truncate(&mut self, len: usize)
        requires
            old(self).wf(),
            len <= old(self)@.len(),
            forall|i: int| len <= i < old(self)@.len() ==> old(self)@[i] == 0,
        ensures
            final(self).wf(),
            final(self)@ == old(self)@.take(len as int),
    {
        let ghost w = self.weights@;
        let ghost t = self.tree@;
        self.tree.truncate(len);
        proof {
            let w2 = w.take(len as int);
            self.weights@ = w2;
            lemma_sum_to_take(w, len as int, len as int);
            lemma_sum_to_take(w, len as int, w.len() as int);
            lemma_sum_to_beyond(w2, w.len() as int);
            assert forall|j: int| 0 <= j < len implies #[trigger] self.tree@[j] == span_sum(
                w2,
                j,
            ) by {
                assert(t[j] == span_sum(w, j));
                lemma_sum_to_take(w, len as int, j);
                let r = reach(j as usize, w.len());
                lemma_sum_to_take(w, len as int, r);
                if r >= len {
                    lemma_sum_to_beyond(w2, r);
                }
            }
        }
    }

    /// Sum of the weights at the indices from `idx` on.
    pub fn suffix_sum(&self, idx: usize) -> (sum: usize)
        requires
            self.wf(),
        ensures
            sum == total(self@) - sum_to(self@, idx as int),
    {
        let ghost w = self.weights@;
        let mut idx = idx;
        let ghost start = idx;
        let mut sum: usize = 0;
        while idx < self.tree.len()
            invariant
                self.wf(),
                w == self.weights@,
                start <= idx,
                sum == sum_to(w, idx as int) - sum_to(w, start as int),
            decreases
                (if idx < self.tree.len() { self.tree.len() - idx } else { 0 }),
        {
            proof {
                lemma_sum_to_monotone(w, reach(idx, w.len()), w.len() as int);
                lemma_sum_to_monotone(w, start as int, idx as int);
                if up(idx) >= w.len() {
                    lemma_sum_to_beyond(w, up(idx) as int);
                }
                lemma_up_grows(idx);
            }
            sum += self.tree[idx];
            idx = Self::next_up(idx);
        }
        proof {
            lemma_sum_to_beyond(w, idx as int);
        }
        sum
    }

    /// Cumulative weight through `idx`: the sum of the weights at the
    /// indices up to and including `idx`. Beyond the last slot this is the
    /// sum of all weights.
    pub fn prefix_sum(&self, idx: usize) -> (sum: usize)
        requires
            self.wf(),
        ensures
            sum == prefix(self@, idx as int),
    {
        let all = self.suffix_sum(0);
        if idx >= self.tree.len() {
            proof {
                lemma_sum_to_beyond(self@, idx + 1);
            }
            all
        } else {
            proof {
                lemma_sum_to_monotone(self@, idx + 1, self@.len() as int);
            }
            all - self.suffix_sum(idx + 1)
        }
    }

    /// Number of slots whose cumulative weight does not exceed `sum`. Where
    /// `sum` is an offset into the concatenation of the weighted items and
    /// no item is empty, this is the index of the item that holds the offset.
    pub fn find_prefix_left(&self, sum: usize) -> (idx: usize)
        requires
            self.wf(),
        ensures
            idx == slots_within(self@, sum as nat),
    {
        let slots = self.tree.len();
        match self.find_prefix(sum) {
            Ok(x) => {
                proof {
                    lemma_locate_exact(self@, sum as nat, x as int);
                }
                x + 1
            },
            Err(x) => {
                proof {
                    lemma_locate_inexact(self@, sum as nat, x as int);
                }
                x
            },
        }
    }

    /// Finds `sum` among the cumulative weights, in one descent through the
    /// tree. The result is `Ok(i)` where the cumulative weight through `i`
    /// is exactly `sum`; of several such indices it is the last. Otherwise
    /// it is `Err(i)`, where `i` is the first index whose cumulative weight
    /// exceeds `sum`, or the number of slots if there is none.
    pub fn find_prefix(&self, sum: usize) -> (found: Result<usize, usize>)
        requires
            self.wf(),
        ensures
            found == locate(self@, sum as nat),
            match found {
                Ok(i) => {
                    &&& i < self@.len()
                    &&& prefix(self@, i as int) == sum
                    &&& i + 1 < self@.len() ==> prefix(self@, i + 1) > sum
                },
                Err(i) => {
                    &&& i <= self@.len()
                    &&& i > 0 ==> prefix(self@, i - 1) < sum
                    &&& i < self@.len() ==> prefix(self@, i as int) > sum
                },
            },
    {
        let ghost w = self@;
        let n = self.tree.len();
        let all = self.suffix_sum(0);
        if sum >= all {
            proof {
                if n > 0 {
                    lemma_sum_to_monotone(w, n - 1, n as int);
                }
            }
            if n > 0 && sum == all {
                proof {
                    lemma_locate_exact(w, sum as nat, n - 1);
                }
                return Ok(n - 1);
            } else {
                proof {
                    lemma_locate_inexact(w, sum as nat, n as int);
                }
                return Err(n);
            }
        }
        // From here on the search is for the last index from which the
        // weights still add up to `need`.
        let need = all - sum;
        let mut end: usize = 0;
        proof {
            lemma_mask_zero();
        }
        while end < n
            invariant
                is_mask(end),
            decreases (if end < n { n - end } else { 0 }),
        {
            proof {
                lemma_mask_grows(end, n);
            }
            end = (end << 1usize) | 1usize;
        }
        let mut mask = end;
        let mut beyond: usize = 0;
        proof {
            lemma_mask_covers_itself(end);
            lemma_sum_to_beyond(w, end as int);
        }
        while mask > 0
            invariant
                self.wf(),
                w == self@,
                n == self.tree.len(),
                all == total(w),
                need == all - sum,
                0 < need,
                is_mask(mask),
                end & mask == mask,
                mask <= end,
                beyond == total(w) - sum_to(w, end as int),
                beyond < need,
                end - mask - 1 >= 0 ==> total(w) - sum_to(w, end - mask - 1) >= need,
            decreases mask,
        {
            let half = mask >> 1;
            proof {
                lemma_mask_halves(end, mask);
            }
            let j = end - (half + 1);
            let from_j = if j < n {
                proof {
                    assert(self.tree@[j as int] == span_sum(w, j as int));
                    lemma_sum_to_monotone(w, j as int, n as int);
                    if end >= n {
                        lemma_sum_to_beyond(w, end as int);
                    }
                }
                self.tree[j] + beyond
            } else {
                proof {
                    lemma_sum_to_beyond(w, j as int);
                }
                0
            };
            if from_j < need {
                end = j;
                beyond = from_j;
            }
            mask = half;
        }
        proof {
            assert(end >= 1);
            if end > n {
                lemma_sum_to_beyond(w, end - 1);
            }
        }
        let k = end - 1;
        let exact = if k > 0 {
            self.prefix_sum(k - 1) == sum
        } else {
            false
        };
        if exact {
            proof {
                lemma_locate_exact(w, sum as nat, k - 1);
            }
            Ok(k - 1)
        } else {
            proof {
                lemma_locate_inexact(w, sum as nat, k as int);
            }
            Err(k)
        }
    }
}

} // verus!
