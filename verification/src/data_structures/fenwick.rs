//! Binary-indexed trees: point update with prefix sums, and range update
//! with point queries.

use vstd::prelude::*;
use crate::data_structures::sums::{
    add_at, add_to_range, ints_of, lemma_prefix_sum_update, lemma_wrap64_fits, lemma_wrap64_ops,
    prefix_sum_of, range_sum_of, set_at, wrap64,
};

verus! {

/// The lowest set bit of a positive index.
pub open spec fn low_bit(i: usize) -> usize {
    i & !((i - 1) as usize)
}

/// The lowest set bit of a positive index is positive and no greater than
/// the index.
pub proof fn lemma_low_bit(i: usize)
    by (bit_vector)
    requires
        i >= 1,
    ensures
        1 <= low_bit(i) <= i,
{
}

/// Stepping an index up by its lowest set bit reaches a node whose block
/// starts no later than the block of the index.
pub proof fn lemma_low_bit_parent(j: usize, next: usize)
    by (bit_vector)
    requires
        j >= 1,
        next == j + low_bit(j),
    ensures
        next - low_bit(next) <= j - low_bit(j),
{
}

/// The block of a node strictly between an index and the index stepped up
/// by its lowest set bit starts at or after the index.
pub proof fn lemma_low_bit_between(j: usize, m: usize)
    by (bit_vector)
    requires
        j >= 1,
        j < m,
        m - j < low_bit(j),
    ensures
        m - low_bit(m) >= j,
{
}

/// A sequence of integers under point updates, with prefix sums in
/// logarithmic time. Sums are kept in 64-bit two's complement: every result
/// is the exact sum wherever that fits in an `i64`.
pub struct FenwickTree {
    tree: Vec<i64>,
    n: usize,
    values: Ghost<Seq<int>>,
}

impl View for FenwickTree {
    type V = Seq<int>;

    closed spec fn view(&self) -> Seq<int> {
        self.values@
    }
}

/// `s` after the point updates of `updates`, index and delta, in turn.
pub open spec fn add_all(s: Seq<int>, updates: Seq<(int, int)>) -> Seq<int>
    decreases updates.len(),
{
    if updates.len() == 0 {
        s
    } else {
        add_at(add_all(s, updates.drop_last()), updates.last().0, updates.last().1)
    }
}

/// The sum of the deltas of those of `updates` that land on an index from
/// `lo` up to, not including, `hi`.
pub open spec fn deltas_within(updates: Seq<(int, int)>, lo: int, hi: int) -> int
    decreases updates.len(),
{
    if updates.len() == 0 {
        0
    } else {
        deltas_within(updates.drop_last(), lo, hi) + if lo <= updates.last().0 < hi {
            updates.last().1
        } else {
            0
        }
    }
}

/// After any sequence of point updates, the sum over a range is the sum
/// before them plus the deltas that landed in the range: what recomputing
/// the sum element by element gives.
pub proof fn lemma_range_sum_after_updates(
    s: Seq<int>,
    updates: Seq<(int, int)>,
    lo: int,
    hi: int,
)
    requires
        0 <= lo <= hi <= s.len(),
        forall|k: int| 0 <= k < updates.len() ==> 0 <= (#[trigger] updates[k]).0 < s.len(),
    ensures
        add_all(s, updates).len() == s.len(),
        range_sum_of(add_all(s, updates), lo, hi) == range_sum_of(s, lo, hi) + deltas_within(
            updates,
            lo,
            hi,
        ),
    decreases updates.len(),
{
    if updates.len() > 0 {
        let before = add_all(s, updates.drop_last());
        lemma_range_sum_after_updates(s, updates.drop_last(), lo, hi);
        let idx = updates.last().0;
        let delta = updates.last().1;
        lemma_prefix_sum_update(before, idx, before[idx] + delta, hi);
        lemma_prefix_sum_update(before, idx, before[idx] + delta, lo);
    }
}

impl FenwickTree {
    /// Every node holds the sum of its block of values.
    pub closed spec fn wf(&self) -> bool {
        &&& self.tree@.len() == self.n + 1
        &&& self.values@.len() == self.n
        &&& forall|j: int|
            1 <= j <= self.n ==> #[trigger] self.tree@[j] == wrap64(
                range_sum_of(self.values@, j - low_bit(j as usize), j),
            )
    }

    /// `size` zeros.
    pub fn new(size: usize) -> (ft: FenwickTree)
        requires
            size < usize::MAX,
        ensures
            ft.wf(),
            ft@ == Seq::new(size as nat, |i: int| 0int),
    {
        let ft = FenwickTree {
            tree: vec![0i64; size + 1],
            n: size,
            values: Ghost(Seq::new(size as nat, |i: int| 0int)),
        };
        proof {
            assert forall|j: int| 1 <= j <= size implies #[trigger] ft.tree@[j] == wrap64(
                range_sum_of(ft.values@, j - low_bit(j as usize), j),
            ) by {
                lemma_low_bit(j as usize);
                lemma_zeros(ft.values@, j);
                lemma_zeros(ft.values@, j - low_bit(j as usize));
            }
        }
        ft
    }

    /// The values of `arr`.
    pub fn from_array(arr: &[i64]) -> (ft: FenwickTree)
        requires
            arr.len() < usize::MAX,
        ensures
            ft.wf(),
            ft@ == ints_of(arr@),
    {
        let mut ft = FenwickTree::new(arr.len());
        let mut i: usize = 0;
        while i < arr.len()
            invariant
                ft.wf(),
                i <= arr.len(),
                ft@ == Seq::new(
                    arr@.len(),
                    |k: int|
                        if k < i {
                            arr@[k] as int
                        } else {
                            0int
                        },
                ),
            decreases arr.len() - i,
        {
            ft.update(i, arr[i]);
            i += 1;
        }
        ft
    }

    /// Adds `delta` to the value at `idx`. An index outside the structure
    /// changes nothing.
    pub fn update(&mut self, idx: usize, delta: i64)
        requires
            old(self).wf(),
        ensures
            final(self).wf(),
            final(self)@ == add_at(old(self)@, idx as int, delta as int),
    {
        proof {
            lemma_wrap64_fits(delta as int);
        }
        self.add(idx, delta, Ghost(delta as int));
    }

    /// Adds to the value at `idx` what `delta` stands for in 64 bits: `d`.
    #[verifier::rlimit(40)]
    fn add(&mut self, idx: usize, delta: i64, Ghost(d): Ghost<int>)
        requires
            old(self).wf(),
            delta == wrap64(d),
        ensures
            final(self).wf(),
            final(self)@ == add_at(old(self)@, idx as int, d),
    {
        if idx >= self.n {
            return ;
        }
        let ghost before = self.values@;
        let ghost after = before.update(idx as int, before[idx as int] + d);
        let n = self.n;
        let nodes = self.tree.len();
        let mut j: usize = idx + 1;
        proof {
            lemma_low_bit(j);
        }
        while j <= n
            invariant
                n == self.n,
                nodes == n + 1,
                self.n == old(self).n,
                self.values@ == before,
                before.len() == n,
                self.tree@.len() == n + 1,
                idx < n,
                delta == wrap64(d),
                1 <= j <= n + 1,
                j <= n ==> j - low_bit(j) <= idx < j,
                forall|m: int|
                    1 <= m <= n ==> #[trigger] self.tree@[m] == wrap64(
                        range_sum_of(before, m - low_bit(m as usize), m) + if m < j && m - low_bit(
                            m as usize,
                        ) <= idx < m {
                            d
                        } else {
                            0
                        },
                    ),
            decreases n + 1 - j,
        {
            let ghost block = range_sum_of(before, j - low_bit(j), j as int);
            proof {
                lemma_low_bit(j);
                lemma_wrap64_ops(block, d);
            }
            let updated = self.tree[j].wrapping_add(delta);
            self.tree.set(j, updated);
            let step = j & !(j - 1);
            let ghost prev = j;
            if step > n - j {
                j = nodes;
            } else {
                j += step;
                proof {
                    lemma_low_bit_parent(prev, j);
                }
            }
            proof {
                assert forall|m: int| 1 <= m <= n implies #[trigger] self.tree@[m] == wrap64(
                    range_sum_of(before, m - low_bit(m as usize), m) + if m < j && m - low_bit(
                        m as usize,
                    ) <= idx < m {
                        d
                    } else {
                        0
                    },
                ) by {
                    if prev < m && m < j {
                        lemma_low_bit_between(prev, m as usize);
                    }
                }
            }
        }
        proof {
            self.values = Ghost(after);
            assert forall|m: int| 1 <= m <= n implies #[trigger] self.tree@[m] == wrap64(
                range_sum_of(after, m - low_bit(m as usize), m),
            ) by {
                lemma_low_bit(m as usize);
                lemma_prefix_sum_update(before, idx as int, before[idx as int] + d, m);
                lemma_prefix_sum_update(
                    before,
                    idx as int,
                    before[idx as int] + d,
                    m - low_bit(m as usize),
                );
            }
        }
    }

    /// The sum of the values at the indices up to and including `idx`; zero
    /// where `idx` is outside the structure.
    pub fn prefix_sum(&self, idx: usize) -> (sum: i64)
        requires
            self.wf(),
        ensures
            idx < self@.len() ==> sum == wrap64(prefix_sum_of(self@, idx + 1)),
            idx >= self@.len() ==> sum == 0,
    {
        if idx >= self.n {
            return 0;
        }
        let mut j: usize = idx + 1;
        let mut sum: i64 = 0;
        while j > 0
            invariant
                self.wf(),
                idx < self.n,
                0 <= j <= idx + 1,
                sum == wrap64(range_sum_of(self.values@, j as int, idx + 1)),
            decreases j,
        {
            proof {
                lemma_low_bit(j);
                lemma_wrap64_ops(
                    range_sum_of(self.values@, j as int, idx + 1),
                    range_sum_of(self.values@, j - low_bit(j), j as int),
                );
            }
            sum = sum.wrapping_add(self.tree[j]);
            j -= j & !(j - 1);
        }
        sum
    }

    /// The sum of the values at the indices from `l` to `r`, both included;
    /// zero where the range is empty or reaches outside the structure.
    pub fn range_sum(&self, l: usize, r: usize) -> (sum: i64)
        requires
            self.wf(),
        ensures
            l <= r < self@.len() ==> sum == wrap64(range_sum_of(self@, l as int, r + 1)),
            !(l <= r < self@.len()) ==> sum == 0,
    {
        if l > r || r >= self.n {
            0
        } else if l == 0 {
            self.prefix_sum(r)
        } else {
            proof {
                lemma_wrap64_ops(
                    prefix_sum_of(self.values@, r + 1),
                    prefix_sum_of(self.values@, l as int),
                );
            }
            self.prefix_sum(r).wrapping_sub(self.prefix_sum(l - 1))
        }
    }

    /// Replaces the value at `idx` by `val`. An index outside the structure
    /// changes nothing.
    pub fn set(&mut self, idx: usize, val: i64)
        requires
            old(self).wf(),
        ensures
            final(self).wf(),
            final(self)@ == set_at(old(self)@, idx as int, val as int),
    {
        if idx >= self.n {
            return ;
        }
        let current = self.range_sum(idx, idx);
        let ghost held = self.values@[idx as int];
        proof {
            lemma_wrap64_fits(val as int);
            lemma_wrap64_ops(val as int, held);
        }
        self.add(idx, val.wrapping_sub(current), Ghost(val - held));
    }
}

/// The running sums of a sequence of differences: element `i` is the sum of
/// the differences up to and including `i`.
pub open spec fn running_sums(diffs: Seq<int>) -> Seq<int> {
    Seq::new(diffs.len(), |i: int| prefix_sum_of(diffs, i + 1))
}

/// A sequence of integers under range updates, with point queries in
/// logarithmic time: a Fenwick tree over the differences of neighbours.
/// Range sums are not offered. Values are kept in 64-bit two's complement:
/// every result is the exact value wherever that fits in an `i64`.
pub struct RangeUpdateFenwickTree {
    tree: FenwickTree,
}

impl View for RangeUpdateFenwickTree {
    type V = Seq<int>;

    closed spec fn view(&self) -> Seq<int> {
        running_sums(self.tree@)
    }
}

impl RangeUpdateFenwickTree {
    /// The tree of differences is well formed.
    pub closed spec fn wf(&self) -> bool {
        self.tree.wf()
    }

    /// `size` zeros.
    pub fn new(size: usize) -> (ft: RangeUpdateFenwickTree)
        requires
            size < usize::MAX,
        ensures
            ft.wf(),
            ft@ == Seq::new(size as nat, |i: int| 0int),
    {
        let ft = RangeUpdateFenwickTree { tree: FenwickTree::new(size) };
        proof {
            assert forall|i: int| 0 <= i < size implies #[trigger] running_sums(ft.tree@)[i]
                == 0 by {
                lemma_zeros(ft.tree@, i + 1);
            }
            assert(ft@ =~= Seq::new(size as nat, |i: int| 0int));
        }
        ft
    }

    /// The values of `arr`.
    pub fn from_array(arr: &[i64]) -> (ft: RangeUpdateFenwickTree)
        requires
            arr.len() < usize::MAX,
        ensures
            ft.wf(),
            ft@ == ints_of(arr@),
    {
        let mut ft = RangeUpdateFenwickTree::new(arr.len());
        let mut i: usize = 0;
        while i < arr.len()
            invariant
                ft.wf(),
                i <= arr.len(),
                ft@ == Seq::new(
                    arr@.len(),
                    |k: int|
                        if k < i {
                            arr@[k] as int
                        } else {
                            0int
                        },
                ),
            decreases arr.len() - i,
        {
            ft.update_range(i, i, arr[i]);
            i += 1;
        }
        ft
    }

    /// Adds `delta` to the values at the indices from `l` to `r`, both
    /// included. The part of the range outside the structure is left out,
    /// and an empty range changes nothing.
    pub fn update_range(&mut self, l: usize, r: usize, delta: i64)
        requires
            old(self).wf(),
        ensures
            final(self).wf(),
            final(self)@ == add_to_range(old(self)@, l as int, r + 1, delta as int),
    {
        let n = self.tree.n;
        if l > r || l >= n {
            proof {
                assert(self@ =~= add_to_range(self@, l as int, r + 1, delta as int));
            }
            return ;
        }
        let ghost diffs = self.tree@;
        self.tree.update(l, delta);
        let ghost opened = self.tree@;
        if r < n - 1 {
            proof {
                lemma_wrap64_fits(0);
                lemma_wrap64_fits(delta as int);
                lemma_wrap64_ops(0, delta as int);
            }
            self.tree.add(r + 1, 0i64.wrapping_sub(delta), Ghost(-(delta as int)));
        }
        proof {
            let target = add_to_range(running_sums(diffs), l as int, r + 1, delta as int);
            assert forall|i: int| 0 <= i < n implies #[trigger] running_sums(self.tree@)[i]
                == target[i] by {
                lemma_prefix_sum_update(diffs, l as int, diffs[l as int] + delta, i + 1);
                if r < n - 1 {
                    lemma_prefix_sum_update(opened, r + 1, opened[r + 1] - delta, i + 1);
                }
            }
            assert(self@ =~= target);
        }
    }

    /// The value at `idx`; zero where `idx` is outside the structure.
    pub fn query(&self, idx: usize) -> (value: i64)
        requires
            self.wf(),
        ensures
            idx < self@.len() ==> value == wrap64(self@[idx as int]),
            idx >= self@.len() ==> value == 0,
    {
        self.tree.prefix_sum(idx)
    }
}

/// Sums over zeros are zero.
proof fn lemma_zeros(s: Seq<int>, k: int)
    requires
        0 <= k <= s.len(),
        forall|i: int| 0 <= i < s.len() ==> s[i] == 0,
    ensures
        prefix_sum_of(s, k) == 0,
    decreases k,
{
    if k > 0 {
        lemma_zeros(s, k - 1);
    }
}

} // verus!
