//! Segment tree over any associative operation with an identity.

use vstd::prelude::*;
use crate::data_structures::sum_segment_tree::{
    below, lemma_below_child, lemma_placed, lemma_root_placed, placed,
};

verus! {

/// An associative operation on `T` with an identity element. The operation
/// need not be commutative.
pub trait Monoid<T> {
    /// The identity element.
    spec fn identity_spec(&self) -> T;

    /// The operation.
    spec fn combine_spec(&self, a: T, b: T) -> T;

    /// The identity is neutral on both sides and the operation is
    /// associative.
    proof fn lemma_laws(&self, a: T, b: T, c: T)
        ensures
            self.combine_spec(self.identity_spec(), a) == a,
            self.combine_spec(a, self.identity_spec()) == a,
            self.combine_spec(self.combine_spec(a, b), c) == self.combine_spec(
                a,
                self.combine_spec(b, c),
            ),
    ;

    /// The identity element.
    fn identity(&self) -> (e: T)
        ensures
            e == self.identity_spec(),
    ;

    /// The operation applied to `a` and `b`, in this order.
    fn combine(&self, a: T, b: T) -> (r: T)
        ensures
            r == self.combine_spec(a, b),
    ;
}

/// The elements of `s` at the indices from `lo` up to, not including, `hi`,
/// combined from left to right; the identity for an empty range.
pub open spec fn fold_range<T, M: Monoid<T>>(m: M, s: Seq<T>, lo: int, hi: int) -> T
    decreases hi - lo,
{
    if lo >= hi {
        m.identity_spec()
    } else {
        m.combine_spec(fold_range(m, s, lo, hi - 1), s[hi - 1])
    }
}

/// A fold over a range is the fold over its first part combined with the
/// fold over the rest.
pub proof fn lemma_fold_split<T, M: Monoid<T>>(m: M, s: Seq<T>, lo: int, mid: int, hi: int)
    requires
        lo <= mid <= hi,
    ensures
        fold_range(m, s, lo, hi) == m.combine_spec(
            fold_range(m, s, lo, mid),
            fold_range(m, s, mid, hi),
        ),
    decreases hi - mid,
{
    if mid == hi {
        m.lemma_laws(fold_range(m, s, lo, hi), fold_range(m, s, lo, hi), fold_range(m, s, lo, hi));
    } else {
        lemma_fold_split(m, s, lo, mid, hi - 1);
        m.lemma_laws(fold_range(m, s, lo, mid), fold_range(m, s, mid, hi - 1), s[hi - 1]);
    }
}

/// The fold over a range of one element is that element.
pub proof fn lemma_fold_one<T, M: Monoid<T>>(m: M, s: Seq<T>, i: int)
    ensures
        fold_range(m, s, i, i + 1) == s[i],
{
    m.lemma_laws(s[i], s[i], s[i]);
    assert(fold_range(m, s, i, i) == m.identity_spec());
}

/// A fold depends only on the elements of its range.
pub proof fn lemma_fold_agree<T, M: Monoid<T>>(m: M, s: Seq<T>, t: Seq<T>, lo: int, hi: int)
    requires
        forall|i: int| lo <= i < hi ==> s[i] == t[i],
    ensures
        fold_range(m, s, lo, hi) == fold_range(m, t, lo, hi),
    decreases hi - lo,
{
    if lo < hi {
        lemma_fold_agree(m, s, t, lo, hi - 1);
    }
}

/// Every node under `node` holds the fold of the values of its range.
pub open spec fn folded<T, M: Monoid<T>>(
    m: M,
    tree: Seq<T>,
    values: Seq<T>,
    node: int,
    start: int,
    end: int,
) -> bool
    decreases end - start,
{
    &&& tree[node] == fold_range(m, values, start, end + 1)
    &&& start < end ==> folded(m, tree, values, 2 * node, start, (start + end) / 2) && folded(
        m,
        tree,
        values,
        2 * node + 1,
        (start + end) / 2 + 1,
        end,
    )
}

/// A subtree whose nodes and values did not change holds its folds as
/// before.
pub proof fn lemma_folded_kept<T, M: Monoid<T>>(
    m: M,
    tree: Seq<T>,
    values: Seq<T>,
    tree2: Seq<T>,
    values2: Seq<T>,
    node: int,
    start: int,
    end: int,
    n: int,
)
    requires
        n >= 1,
        placed(node, end - start + 1, n),
        0 <= start <= end < n,
        tree.len() == 4 * n,
        tree2.len() == 4 * n,
        folded(m, tree, values, node, start, end),
        forall|k: int| 0 <= k < 4 * n && below(k, node) ==> #[trigger] tree2[k] == tree[k],
        forall|i: int| start <= i <= end ==> #[trigger] values2[i] == values[i],
    ensures
        folded(m, tree2, values2, node, start, end),
    decreases end - start,
{
    assert(below(node, node));
    lemma_placed(node, start, end, n);
    lemma_fold_agree(m, values2, values, start, end + 1);
    if start < end {
        let mid = (start + end) / 2;
        let lc = 2 * node;
        let rc = 2 * node + 1;
        assert forall|k: int| 0 <= k < 4 * n && #[trigger] below(k, lc) implies tree2[k]
            == tree[k] by {
            lemma_below_child(k, node);
        }
        assert forall|k: int| 0 <= k < 4 * n && #[trigger] below(k, rc) implies tree2[k]
            == tree[k] by {
            lemma_below_child(k, node);
        }
        lemma_folded_kept(m, tree, values, tree2, values2, lc, start, mid, n);
        lemma_folded_kept(m, tree, values, tree2, values2, rc, mid + 1, end, n);
    }
}

/// A fold over copies of the identity is the identity.
pub proof fn lemma_fold_identities<T, M: Monoid<T>>(m: M, s: Seq<T>, lo: int, hi: int)
    requires
        forall|i: int| lo <= i < hi ==> s[i] == m.identity_spec(),
    ensures
        fold_range(m, s, lo, hi) == m.identity_spec(),
    decreases hi - lo,
{
    if lo < hi {
        lemma_fold_identities(m, s, lo, hi - 1);
        m.lemma_laws(m.identity_spec(), m.identity_spec(), m.identity_spec());
    }
}

/// A tree of identities over identities holds its folds.
pub proof fn lemma_folded_identities<T, M: Monoid<T>>(
    m: M,
    tree: Seq<T>,
    values: Seq<T>,
    node: int,
    start: int,
    end: int,
    n: int,
)
    requires
        n >= 1,
        placed(node, end - start + 1, n),
        0 <= start <= end < n,
        tree.len() == 4 * n,
        values.len() == n,
        forall|k: int| 0 <= k < tree.len() ==> tree[k] == m.identity_spec(),
        forall|i: int| 0 <= i < n ==> values[i] == m.identity_spec(),
    ensures
        folded(m, tree, values, node, start, end),
    decreases end - start,
{
    lemma_placed(node, start, end, n);
    lemma_fold_identities(m, values, start, end + 1);
    if start < end {
        let mid = (start + end) / 2;
        lemma_folded_identities(m, tree, values, 2 * node, start, mid, n);
        lemma_folded_identities(m, tree, values, 2 * node + 1, mid + 1, end, n);
    }
}

/// A sequence of values under point assignments, with folds over ranges in
/// logarithmic time. Range updates are not offered: an arbitrary operation
/// cannot be deferred.
pub struct SegmentTree<T, M> {
    tree: Vec<T>,
    size: usize,
    monoid: M,
    values: Ghost<Seq<T>>,
}

impl<T: Copy, M: Monoid<T>> View for SegmentTree<T, M> {
    type V = Seq<T>;

    closed spec fn view(&self) -> Seq<T> {
        self.values@
    }
}

impl<T: Copy, M: Monoid<T>> SegmentTree<T, M> {
    /// The array has four slots per value.
    pub closed spec fn shaped(&self) -> bool {
        &&& 4 * self.size <= usize::MAX
        &&& self.tree@.len() == 4 * self.size
        &&& self.values@.len() == self.size
    }

    /// Every node holds the fold of the values of its range.
    pub closed spec fn wf(&self) -> bool {
        &&& self.shaped()
        &&& self.size > 0 ==> folded(
            self.monoid,
            self.tree@,
            self.values@,
            1,
            0,
            self.size - 1,
        )
    }

    /// The operation that the tree folds with.
    pub closed spec fn monoid(&self) -> M {
        self.monoid
    }

    /// `size` copies of the identity of `monoid`.
    pub fn new(size: usize, monoid: M) -> (st: Self)
        requires
            4 * size <= usize::MAX,
        ensures
            st.wf(),
            st.monoid() == monoid,
            st@ == Seq::new(size as nat, |i: int| monoid.identity_spec()),
    {
        let identity = monoid.identity();
        let mut tree: Vec<T> = Vec::new();
        let mut k: usize = 0;
        while k < 4 * size
            invariant
                4 * size <= usize::MAX,
                k <= 4 * size,
                tree@.len() == k,
                forall|j: int| 0 <= j < k ==> tree@[j] == identity,
            decreases 4 * size - k,
        {
            tree.push(identity);
            k += 1;
        }
        let st = SegmentTree {
            tree,
            size,
            monoid,
            values: Ghost(Seq::new(size as nat, |i: int| monoid.identity_spec())),
        };
        proof {
            if size > 0 {
                lemma_root_placed(size as int);
                lemma_folded_identities(st.monoid, st.tree@, st.values@, 1, 0, size - 1, size as int);
            }
        }
        st
    }

    /// The values of `arr`, folded with `monoid`.
    pub fn from_array(arr: &[T], monoid: M) -> (st: Self)
        requires
            4 * arr.len() <= usize::MAX,
        ensures
            st.wf(),
            st.monoid() == monoid,
            st@ == arr@,
    {
        let mut st = Self::new(arr.len(), monoid);
        st.values = Ghost(arr@);
        if arr.len() > 0 {
            proof {
                lemma_root_placed(arr.len() as int);
            }
            st.build(arr, 1, 0, arr.len() - 1);
        }
        st
    }

    /// Fills the nodes under `node`, over the values from `start` to `end`,
    /// from the leaves up.
    #[verifier::rlimit(40)]
    fn build(&mut self, arr: &[T], node: usize, start: usize, end: usize)
        requires
            old(self).shaped(),
            placed(node as int, end - start + 1, old(self).size as int),
            start <= end < old(self).size,
            arr@ == old(self).values@,
        ensures
            final(self).shaped(),
            final(self).size == old(self).size,
            final(self).monoid == old(self).monoid,
            final(self).values@ == old(self).values@,
            folded(
                final(self).monoid,
                final(self).tree@,
                final(self).values@,
                node as int,
                start as int,
                end as int,
            ),
            forall|k: int|
                0 <= k < old(self).tree@.len() && !below(k, node as int) ==> #[trigger] final(self).tree@[k] == old(self).tree@[k],
        decreases end - start,
    {
        let ghost n = self.size as int;
        let ghost m = self.monoid;
        let ghost values = self.values@;
        let ghost lc = 2 * node as int;
        let ghost rc = 2 * node + 1;
        proof {
            lemma_placed(node as int, start as int, end as int, n);
            assert(below(node as int, node as int));
        }
        if start == end {
            self.tree.set(node, arr[start]);
            proof {
                lemma_fold_one(m, values, start as int);
            }
        } else {
            let mid = (start + end) / 2;
            self.build(arr, 2 * node, start, mid);
            let ghost t1 = self.tree@;
            self.build(arr, 2 * node + 1, mid + 1, end);
            let ghost t2 = self.tree@;
            let combined = self.monoid.combine(self.tree[2 * node], self.tree[2 * node + 1]);
            self.tree.set(node, combined);
            proof {
                let t3 = self.tree@;
                assert forall|k: int| 0 <= k < 4 * n && #[trigger] below(k, lc) implies t3[k]
                    == t1[k] by {
                    lemma_below_child(k, node as int);
                }
                assert forall|k: int| 0 <= k < 4 * n && #[trigger] below(k, rc) implies t3[k]
                    == t2[k] by {
                    lemma_below_child(k, node as int);
                }
                lemma_folded_kept(m, t1, values, t3, values, lc, start as int, mid as int, n);
                lemma_folded_kept(m, t2, values, t3, values, rc, mid + 1, end as int, n);
                assert(t2[lc] == t1[lc]) by {
                    assert(below(lc, lc));
                    lemma_below_child(lc, node as int);
                }
                lemma_fold_split(m, values, start as int, mid + 1, end + 1);
                assert forall|k: int|
                    0 <= k < old(self).tree@.len() && !below(k, node as int) implies #[trigger] t3[k]
                    == old(self).tree@[k] by {
                    lemma_below_child(k, node as int);
                }
            }
        }
    }

    /// Replaces the value at `idx` by `val`. An index outside the structure
    /// changes nothing.
    pub fn update_point(&mut self, idx: usize, val: T)
        requires
            old(self).wf(),
        ensures
            final(self).wf(),
            final(self).monoid() == old(self).monoid(),
            idx < old(self)@.len() ==> final(self)@ == old(self)@.update(idx as int, val),
            idx >= old(self)@.len() ==> final(self)@ == old(self)@,
    {
        if idx < self.size {
            proof {
                lemma_root_placed(self.size as int);
            }
            let last = self.size - 1;
            self.update_point_helper(1, 0, last, idx, val);
        }
    }

    /// Replaces the value at `idx` under `node` and folds again on the way back
    /// up.
    #[verifier::rlimit(40)]
    fn update_point_helper(&mut self, node: usize, start: usize, end: usize, idx: usize, val: T)
        requires
            old(self).shaped(),
            placed(node as int, end - start + 1, old(self).size as int),
            start <= idx <= end < old(self).size,
            folded(
                old(self).monoid,
                old(self).tree@,
                old(self).values@,
                node as int,
                start as int,
                end as int,
            ),
        ensures
            final(self).shaped(),
            final(self).size == old(self).size,
            final(self).monoid == old(self).monoid,
            final(self).values@ == old(self).values@.update(idx as int, val),
            folded(
                final(self).monoid,
                final(self).tree@,
                final(self).values@,
                node as int,
                start as int,
                end as int,
            ),
            forall|k: int|
                0 <= k < old(self).tree@.len() && !below(k, node as int) ==> #[trigger] final(self).tree@[k] == old(self).tree@[k],
        decreases end - start,
    {
        let ghost n = self.size as int;
        let ghost m = self.monoid;
        let ghost values = self.values@;
        let ghost updated = values.update(idx as int, val);
        let ghost t0 = self.tree@;
        let ghost lc = 2 * node as int;
        let ghost rc = 2 * node + 1;
        proof {
            lemma_placed(node as int, start as int, end as int, n);
            assert(below(node as int, node as int));
        }
        if start == end {
            self.tree.set(node, val);
            proof {
                self.values = Ghost(updated);
                lemma_fold_one(m, updated, start as int);
            }
        } else {
            let mid = (start + end) / 2;
            if idx <= mid {
                self.update_point_helper(2 * node, start, mid, idx, val);
            } else {
                self.update_point_helper(2 * node + 1, mid + 1, end, idx, val);
            }
            let ghost t1 = self.tree@;
            let combined = self.monoid.combine(self.tree[2 * node], self.tree[2 * node + 1]);
            self.tree.set(node, combined);
            proof {
                let t2 = self.tree@;
                assert forall|k: int| 0 <= k < 4 * n && #[trigger] below(k, lc) implies t2[k]
                    == t1[k] && (idx > mid ==> t1[k] == t0[k]) by {
                    lemma_below_child(k, node as int);
                }
                assert forall|k: int| 0 <= k < 4 * n && #[trigger] below(k, rc) implies t2[k]
                    == t1[k] && (idx <= mid ==> t1[k] == t0[k]) by {
                    lemma_below_child(k, node as int);
                }
                if idx <= mid {
                    lemma_folded_kept(m, t1, updated, t2, updated, lc, start as int, mid as int, n);
                    lemma_folded_kept(m, t0, values, t2, updated, rc, mid + 1, end as int, n);
                } else {
                    lemma_folded_kept(m, t0, values, t2, updated, lc, start as int, mid as int, n);
                    lemma_folded_kept(m, t1, updated, t2, updated, rc, mid + 1, end as int, n);
                }
                lemma_fold_split(m, updated, start as int, mid + 1, end + 1);
                assert forall|k: int|
                    0 <= k < t0.len() && !below(k, node as int) implies #[trigger] t2[k]
                    == t0[k] by {
                    lemma_below_child(k, node as int);
                }
            }
        }
    }

    /// The values at the indices from `l` to `r`, both included, combined
    /// from left to right; the identity where the range is empty or reaches
    /// outside the structure.
    pub fn query(&self, l: usize, r: usize) -> (folded: T)
        requires
            self.wf(),
        ensures
            l <= r < self@.len() ==> folded == fold_range(self.monoid(), self@, l as int, r + 1),
            !(l <= r < self@.len()) ==> folded == self.monoid().identity_spec(),
    {
        if l <= r && r < self.size {
            proof {
                lemma_root_placed(self.size as int);
            }
            self.query_helper(1, 0, self.size - 1, l, r)
        } else {
            self.monoid.identity()
        }
    }

    /// The fold of the values under `node` that lie from `l` to `r`.
    fn query_helper(&self, node: usize, start: usize, end: usize, l: usize, r: usize) -> (result: T)
        requires
            self.shaped(),
            placed(node as int, end - start + 1, self.size as int),
            start <= end < self.size,
            folded(self.monoid, self.tree@, self.values@, node as int, start as int, end as int),
            l <= r,
        ensures
            result == fold_range(
                self.monoid,
                self.values@,
                if start >= l {
                    start as int
                } else {
                    l as int
                },
                if end <= r {
                    end + 1
                } else {
                    r + 1
                },
            ),
        decreases end - start,
    {
        let ghost n = self.size as int;
        let ghost m = self.monoid;
        let ghost values = self.values@;
        if start > r || end < l {
            return self.monoid.identity();
        }
        proof {
            lemma_placed(node as int, start as int, end as int, n);
        }
        if start >= l && end <= r {
            return self.tree[node];
        }
        let mid = (start + end) / 2;
        let left_query = self.query_helper(2 * node, start, mid, l, r);
        let right_query = self.query_helper(2 * node + 1, mid + 1, end, l, r);
        proof {
            let lo = if start >= l {
                start as int
            } else {
                l as int
            };
            let hi = if end <= r {
                end + 1
            } else {
                r + 1
            };
            let x = fold_range(m, values, lo, hi);
            m.lemma_laws(x, x, x);
            if r <= mid {
                assert(right_query == m.identity_spec());
            } else if l > mid {
                assert(left_query == m.identity_spec());
            } else {
                lemma_fold_split(m, values, lo, mid + 1, hi);
            }
        }
        self.monoid.combine(left_query, right_query)
    }
}

/// The smaller of two integers, with the largest integer as identity.
pub struct MinI64;

/// The larger of two integers, with the smallest integer as identity.
pub struct MaxI64;

impl Monoid<i64> for MinI64 {
    open spec fn identity_spec(&self) -> i64 {
        i64::MAX
    }

    open spec fn combine_spec(&self, a: i64, b: i64) -> i64 {
        if a <= b {
            a
        } else {
            b
        }
    }

    proof fn lemma_laws(&self, a: i64, b: i64, c: i64) {
    }

    fn identity(&self) -> (e: i64) {
        i64::MAX
    }

    fn combine(&self, a: i64, b: i64) -> (r: i64) {
        if a <= b {
            a
        } else {
            b
        }
    }
}

impl Monoid<i64> for MaxI64 {
    open spec fn identity_spec(&self) -> i64 {
        i64::MIN
    }

    open spec fn combine_spec(&self, a: i64, b: i64) -> i64 {
        if a >= b {
            a
        } else {
            b
        }
    }

    proof fn lemma_laws(&self, a: i64, b: i64, c: i64) {
    }

    fn identity(&self) -> (e: i64) {
        i64::MIN
    }

    fn combine(&self, a: i64, b: i64) -> (r: i64) {
        if a >= b {
            a
        } else {
            b
        }
    }
}

/// The fold of a range with `MinI64` is its minimum: no element of the
/// range is smaller, and one of them equals it unless the range is empty.
pub proof fn lemma_min_fold(s: Seq<i64>, lo: int, hi: int)
    ensures
        forall|i: int| lo <= i < hi ==> fold_range(MinI64, s, lo, hi) <= #[trigger] s[i],
        lo < hi ==> exists|i: int| lo <= i < hi && #[trigger] s[i] == fold_range(MinI64, s, lo, hi),
        lo >= hi ==> fold_range(MinI64, s, lo, hi) == i64::MAX,
    decreases hi - lo,
{
    if lo < hi {
        lemma_min_fold(s, lo, hi - 1);
        let rest = fold_range(MinI64, s, lo, hi - 1);
        if rest <= s[hi - 1] && lo < hi - 1 {
            let i = choose|i: int| lo <= i < hi - 1 && #[trigger] s[i] == rest;
            assert(s[i] == fold_range(MinI64, s, lo, hi));
        } else {
            assert(s[hi - 1] == fold_range(MinI64, s, lo, hi));
        }
    }
}

/// The fold of a range with `MaxI64` is its maximum: no element of the
/// range is larger, and one of them equals it unless the range is empty.
pub proof fn lemma_max_fold(s: Seq<i64>, lo: int, hi: int)
    ensures
        forall|i: int| lo <= i < hi ==> fold_range(MaxI64, s, lo, hi) >= #[trigger] s[i],
        lo < hi ==> exists|i: int| lo <= i < hi && #[trigger] s[i] == fold_range(MaxI64, s, lo, hi),
        lo >= hi ==> fold_range(MaxI64, s, lo, hi) == i64::MIN,
    decreases hi - lo,
{
    if lo < hi {
        lemma_max_fold(s, lo, hi - 1);
        let rest = fold_range(MaxI64, s, lo, hi - 1);
        if rest >= s[hi - 1] && lo < hi - 1 {
            let i = choose|i: int| lo <= i < hi - 1 && #[trigger] s[i] == rest;
            assert(s[i] == fold_range(MaxI64, s, lo, hi));
        } else {
            assert(s[hi - 1] == fold_range(MaxI64, s, lo, hi));
        }
    }
}

impl SegmentTree<i64, MinI64> {
    /// A tree for minima over `size` copies of `i64::MAX`.
    pub fn min(size: usize) -> (st: Self)
        requires
            4 * size <= usize::MAX,
        ensures
            st.wf(),
            st@ == Seq::new(size as nat, |i: int| i64::MAX),
    {
        Self::new(size, MinI64)
    }

    /// A tree for minima over the values of `arr`.
    pub fn min_from_array(arr: &[i64]) -> (st: Self)
        requires
            4 * arr.len() <= usize::MAX,
        ensures
            st.wf(),
            st@ == arr@,
    {
        Self::from_array(arr, MinI64)
    }
}

impl SegmentTree<i64, MaxI64> {
    /// A tree for maxima over `size` copies of `i64::MIN`.
    pub fn max(size: usize) -> (st: Self)
        requires
            4 * size <= usize::MAX,
        ensures
            st.wf(),
            st@ == Seq::new(size as nat, |i: int| i64::MIN),
    {
        Self::new(size, MaxI64)
    }

    /// A tree for maxima over the values of `arr`.
    pub fn max_from_array(arr: &[i64]) -> (st: Self)
        requires
            4 * arr.len() <= usize::MAX,
        ensures
            st.wf(),
            st@ == arr@,
    {
        Self::from_array(arr, MaxI64)
    }
}

} // verus!
