//! Disjoint-set forest with path compression and union by size.

use vstd::prelude::*;

verus! {

/// What a disjoint-set forest stands for: every element's representative, and
/// the rank kept beside it, which grows by one where two representatives of
/// one rank merge.
pub struct Forest {
    pub root: Seq<int>,
    pub rank: Seq<nat>,
}

impl Forest {
    /// The number of elements.
    pub open spec fn len(self) -> nat {
        self.root.len()
    }

    /// Every representative is an element and represents itself.
    pub open spec fn wf(self) -> bool {
        &&& self.rank.len() == self.root.len()
        &&& forall|i: int|
            0 <= i < self.root.len() ==> 0 <= #[trigger] self.root[i] < self.root.len()
        &&& forall|i: int|
            0 <= i < self.root.len() ==> self.root[#[trigger] self.root[i]] == self.root[i]
    }

    /// `n` elements, each alone in its component.
    pub open spec fn singletons(n: nat) -> Forest {
        Forest { root: Seq::new(n, |i: int| i), rank: Seq::new(n, |i: int| 0nat) }
    }

    /// The representative of `x`; an index outside the forest stands for itself.
    pub open spec fn find(self, x: int) -> int {
        if 0 <= x < self.root.len() {
            self.root[x]
        } else {
            x
        }
    }

    /// Whether `x` and `y` are elements of one component.
    pub open spec fn connected(self, x: int, y: int) -> bool {
        0 <= x < self.root.len() && 0 <= y < self.root.len() && self.root[x] == self.root[y]
    }

    /// Whether joining `x` and `y` changes anything: both are elements, in
    /// different components.
    pub open spec fn mergeable(self, x: int, y: int) -> bool {
        0 <= x < self.root.len() && 0 <= y < self.root.len() && self.root[x] != self.root[y]
    }

    /// The representative that survives when the components of `x` and `y`
    /// merge: that of the component with more elements, that of `x` where
    /// both have as many.
    pub open spec fn winner(self, x: int, y: int) -> int {
        if self.members(x).len() < self.members(y).len() {
            self.root[y]
        } else {
            self.root[x]
        }
    }

    /// The representative that stops being one when the components of `x`
    /// and `y` merge.
    pub open spec fn loser(self, x: int, y: int) -> int {
        if self.members(x).len() < self.members(y).len() {
            self.root[x]
        } else {
            self.root[y]
        }
    }

    /// The forest after joining the components of `x` and `y`.
    pub open spec fn union(self, x: int, y: int) -> Forest {
        if self.mergeable(x, y) {
            let w = self.winner(x, y);
            let l = self.loser(x, y);
            Forest {
                root: Seq::new(
                    self.root.len(),
                    |i: int|
                        if self.root[i] == l {
                            w
                        } else {
                            self.root[i]
                        },
                ),
                rank: if self.rank[self.root[x]] == self.rank[self.root[y]] {
                    self.rank.update(w, self.rank[w] + 1)
                } else {
                    self.rank
                },
            }
        } else {
            self
        }
    }

    /// The elements that represent a component.
    pub open spec fn representatives(self) -> Set<int> {
        Set::new(|r: int| 0 <= r < self.root.len() && self.root[r] == r)
    }

    /// The number of components.
    pub open spec fn count(self) -> nat {
        self.representatives().len()
    }

    /// The elements of the component that `x` is in; empty when `x` is no
    /// element.
    pub open spec fn members(self, x: int) -> Set<int> {
        Set::new(|j: int| self.connected(x, j))
    }

    /// The forest after joining the pairs of `ops` in turn.
    pub open spec fn union_seq(self, ops: Seq<(int, int)>) -> Forest
        decreases ops.len(),
    {
        if ops.len() == 0 {
            self
        } else {
            self.union_seq(ops.drop_last()).union(ops.last().0, ops.last().1)
        }
    }

    /// How many of the joins of `ops`, made in turn, merge two components.
    pub open spec fn merges(self, ops: Seq<(int, int)>) -> nat
        decreases ops.len(),
    {
        if ops.len() == 0 {
            0
        } else {
            let before = self.union_seq(ops.drop_last());
            self.merges(ops.drop_last()) + if before.mergeable(ops.last().0, ops.last().1) {
                1nat
            } else {
                0nat
            }
        }
    }

    /// The forest after joining every element of `elements` to the first.
    pub open spec fn union_all(self, elements: Seq<int>) -> Forest
        decreases elements.len(),
    {
        if elements.len() < 2 {
            self
        } else {
            self.union_all(elements.drop_last()).union(elements[0], elements.last())
        }
    }
}

/// The integers from `lo` up to, not including, `hi`.
pub open spec fn int_range(lo: int, hi: int) -> Set<int> {
    Set::new(|i: int| lo <= i < hi)
}

/// A range of integers is finite and has as many elements as it is long.
pub proof fn lemma_int_range(lo: int, hi: int)
    requires
        lo <= hi,
    ensures
        int_range(lo, hi).finite(),
        int_range(lo, hi).len() == hi - lo,
    decreases hi - lo,
{
    if lo == hi {
        assert(int_range(lo, hi) =~= Set::empty());
    } else {
        lemma_int_range(lo, hi - 1);
        assert(int_range(lo, hi) =~= int_range(lo, hi - 1).insert(hi - 1));
    }
}

/// A set of integers from a range is finite and no larger than the range.
pub proof fn lemma_subset_of_range(s: Set<int>, lo: int, hi: int)
    requires
        lo <= hi,
        forall|i: int| s.contains(i) ==> lo <= i < hi,
    ensures
        s.finite(),
        s.len() <= hi - lo,
{
    lemma_int_range(lo, hi);
    assert(s.subset_of(int_range(lo, hi)));
    vstd::set_lib::lemma_len_subset(s, int_range(lo, hi));
}

/// A forest of singletons is well formed and has one component per element.
pub proof fn lemma_singletons(n: nat)
    ensures
        Forest::singletons(n).wf(),
        Forest::singletons(n).len() == n,
        Forest::singletons(n).count() == n,
        forall|i: int, j: int|
            0 <= i < n && 0 <= j < n ==> (Forest::singletons(n).connected(i, j) <==> i == j),
{
    let f = Forest::singletons(n);
    assert(f.representatives() =~= int_range(0, n as int));
    lemma_int_range(0, n as int);
}

/// Joining two elements keeps a forest well formed. Where they were in
/// different components exactly one component disappears; where they were
/// already connected, or one of them is no element, nothing changes.
pub proof fn lemma_union(f: Forest, x: int, y: int)
    requires
        f.wf(),
    ensures
        f.union(x, y).wf(),
        f.union(x, y).len() == f.len(),
        f.representatives().finite(),
        f.mergeable(x, y) ==> f.count() >= 1 && f.union(x, y).count() == f.count() - 1,
        !f.mergeable(x, y) ==> f.union(x, y) == f,
        forall|i: int, j: int|
            0 <= i < f.len() && 0 <= j < f.len() ==> (f.union(x, y).connected(i, j) <==> (
                f.connected(i, j) || (f.mergeable(x, y) && ((f.connected(i, x) && f.connected(
                    j,
                    y,
                )) || (f.connected(i, y) && f.connected(j, x))))
            )),
{
    let g = f.union(x, y);
    lemma_subset_of_range(f.representatives(), 0, f.len() as int);
    if f.mergeable(x, y) {
        let w = f.winner(x, y);
        let l = f.loser(x, y);
        assert(f.root[f.root[x]] == f.root[x]);
        assert(f.root[f.root[y]] == f.root[y]);
        assert(w != l);
        assert(f.root[w] == w && f.root[l] == l);
        assert forall|i: int| 0 <= i < g.root.len() implies g.root[#[trigger] g.root[i]]
            == g.root[i] by {
            assert(f.root[f.root[i]] == f.root[i]);
        }
        assert(f.representatives().contains(l));
        assert(g.representatives() =~= f.representatives().remove(l)) by {
            assert forall|r: int| g.representatives().contains(r) <==> f.representatives().remove(
                l,
            ).contains(r) by {
                if 0 <= r < f.len() {
                    assert(f.root[f.root[r]] == f.root[r]);
                }
            }
        }
    }
}

/// Starting from singletons, every join that merges two components takes
/// exactly one from the count: after the joins of `ops` the forest has `n`
/// components less the number of joins that merged.
pub proof fn lemma_count_after_unions(n: nat, ops: Seq<(int, int)>)
    ensures
        Forest::singletons(n).union_seq(ops).wf(),
        Forest::singletons(n).union_seq(ops).len() == n,
        Forest::singletons(n).merges(ops) <= n,
        Forest::singletons(n).union_seq(ops).count() == n - Forest::singletons(n).merges(ops),
    decreases ops.len(),
{
    let f = Forest::singletons(n);
    if ops.len() == 0 {
        lemma_singletons(n);
    } else {
        lemma_count_after_unions(n, ops.drop_last());
        lemma_union(f.union_seq(ops.drop_last()), ops.last().0, ops.last().1);
    }
}

/// Joining two elements a second time changes nothing.
pub proof fn lemma_union_twice(f: Forest, x: int, y: int)
    requires
        f.wf(),
    ensures
        !f.union(x, y).mergeable(x, y),
        f.union(x, y).union(x, y) == f.union(x, y),
{
    lemma_union(f, x, y);
    if f.mergeable(x, y) {
        assert(f.root[f.root[x]] == f.root[x]);
        assert(f.root[f.root[y]] == f.root[y]);
    }
}

/// A component is finite and no larger than the forest; that of a
/// representative holds it.
pub proof fn lemma_members(f: Forest, x: int)
    requires
        f.wf(),
    ensures
        f.members(x).finite(),
        f.members(x).len() <= f.len(),
        0 <= x < f.len() ==> f.members(x).len() >= 1 && f.members(x) == f.members(f.root[x]),
        !(0 <= x < f.len()) ==> f.members(x).len() == 0,
{
    lemma_subset_of_range(f.members(x), 0, f.len() as int);
    if 0 <= x < f.len() {
        assert(f.members(x).contains(x));
        if f.members(x).len() == 0 {
            f.members(x).lemma_len0_is_empty();
        }
        assert(f.root[f.root[x]] == f.root[x]);
        assert(f.members(x) =~= f.members(f.root[x]));
    } else {
        assert(f.members(x) =~= Set::empty());
    }
}

/// A merge gives the surviving representative the elements of both
/// components and leaves every other component as it was.
pub proof fn lemma_union_members(f: Forest, x: int, y: int)
    requires
        f.wf(),
        f.mergeable(x, y),
    ensures
        f.union(x, y).members(f.winner(x, y)) == f.members(x) + f.members(y),
        f.union(x, y).members(f.winner(x, y)).len() == f.members(x).len() + f.members(y).len(),
        f.members(x).len() + f.members(y).len() <= f.len(),
        forall|r: int|
            0 <= r < f.len() && f.root[r] != f.root[x] && f.root[r] != f.root[y] ==> f.union(
                x,
                y,
            ).members(r) == #[trigger] f.members(r),
{
    let g = f.union(x, y);
    let w = f.winner(x, y);
    let l = f.loser(x, y);
    let a = f.members(x);
    let b = f.members(y);
    lemma_union(f, x, y);
    lemma_members(f, x);
    lemma_members(f, y);
    lemma_members(g, w);
    assert(f.root[f.root[x]] == f.root[x]);
    assert(f.root[f.root[y]] == f.root[y]);
    assert(g.members(w) =~= a + b);
    assert(a.disjoint(b));
    vstd::set_lib::lemma_set_disjoint_lens(a, b);
    assert forall|r: int|
        0 <= r < f.len() && f.root[r] != f.root[x] && f.root[r] != f.root[y] implies g.members(r)
        == #[trigger] f.members(r) by {
        assert(g.members(r) =~= f.members(r));
    }
}

impl Forest {
    /// The representatives below `bound`.
    pub open spec fn representatives_below(self, bound: int) -> Set<int> {
        Set::new(|r: int| 0 <= r < bound && r < self.root.len() && self.root[r] == r)
    }
}

/// Counting representatives one index at a time: an index adds one to the
/// count exactly where it represents itself.
pub proof fn lemma_representatives_step(f: Forest, i: int)
    requires
        0 <= i < f.len(),
    ensures
        f.representatives_below(0).len() == 0,
        f.representatives_below(i).finite(),
        f.representatives_below(i + 1).len() == f.representatives_below(i).len() + if f.root[i]
            == i {
            1nat
        } else {
            0nat
        },
        f.representatives_below(f.len() as int) == f.representatives(),
{
    assert(f.representatives_below(0) =~= Set::empty());
    lemma_subset_of_range(f.representatives_below(i), 0, i);
    if f.root[i] == i {
        assert(f.representatives_below(i + 1) =~= f.representatives_below(i).insert(i));
    } else {
        assert(f.representatives_below(i + 1) =~= f.representatives_below(i));
    }
    assert(f.representatives_below(f.len() as int) =~= f.representatives());
}

impl Forest {
    /// Whether `reps` lists, in ascending order, the representatives below
    /// `bound`.
    pub open spec fn lists_representatives(self, reps: Seq<usize>, bound: int) -> bool {
        &&& forall|a: int, b: int| 0 <= a < b < reps.len() ==> reps[a] < reps[b]
        &&& forall|a: int|
            0 <= a < reps.len() ==> (#[trigger] reps[a]) < bound && reps[a] < self.root.len()
                && self.root[reps[a] as int] == reps[a]
        &&& forall|r: int|
            0 <= r < bound && r < self.root.len() && #[trigger] self.root[r] == r ==> exists|a: int|
                0 <= a < reps.len() && #[trigger] reps[a] == r
    }
}

/// Below zero there is no representative to list.
pub proof fn lemma_lists_none(f: Forest)
    ensures
        f.lists_representatives(Seq::empty(), 0),
        f.representatives_below(0).len() == 0,
{
    assert(f.representatives_below(0) =~= Set::empty());
}

/// A list of the representatives below `i` lists those below `i + 1` once
/// it takes `i` where `i` is a representative.
pub proof fn lemma_lists_step(f: Forest, reps: Seq<usize>, i: int)
    requires
        0 <= i < f.len(),
        i <= usize::MAX,
        f.lists_representatives(reps, i),
        reps.len() == f.representatives_below(i).len(),
    ensures
        f.root[i] == i ==> f.lists_representatives(reps.push(i as usize), i + 1) && reps.len() + 1
            == f.representatives_below(i + 1).len(),
        f.root[i] != i ==> f.lists_representatives(reps, i + 1) && reps.len()
            == f.representatives_below(i + 1).len(),
{
    lemma_representatives_step(f, i);
    if f.root[i] == i {
        let more = reps.push(i as usize);
        assert forall|r: int|
            0 <= r < i + 1 && r < f.root.len() && #[trigger] f.root[r] == r implies exists|a: int|
            0 <= a < more.len() && #[trigger] more[a] == r by {
            if r < i {
                let a = choose|a: int| 0 <= a < reps.len() && #[trigger] reps[a] == r;
                assert(more[a] == r);
            } else {
                assert(more[reps.len() as int] == r);
            }
        }
    }
}

/// A list of the representatives below the number of elements has as many
/// entries as there are components.
pub proof fn lemma_lists_all(f: Forest, reps: Seq<usize>)
    requires
        f.lists_representatives(reps, f.len() as int),
        reps.len() == f.representatives_below(f.len() as int).len(),
    ensures
        reps.len() == f.count(),
{
    assert(f.representatives_below(f.len() as int) =~= f.representatives());
}

/// The elements of a slice as integers.
pub open spec fn as_ints(elements: Seq<usize>) -> Seq<int> {
    Seq::new(elements.len(), |i: int| elements[i] as int)
}

impl Forest {
    /// Whether `groups` lists the components, one group each: ordered by
    /// representative, every group holding the elements of its component in
    /// ascending order.
    pub open spec fn grouped_as(self, groups: Seq<Seq<usize>>) -> bool {
        &&& groups.len() == self.count()
        &&& forall|k: int| 0 <= k < groups.len() ==> (#[trigger] groups[k]).len() > 0
        &&& forall|k: int, a: int|
            0 <= k < groups.len() && 0 <= a < groups[k].len() ==> (#[trigger] groups[k][a])
                < self.root.len() && self.root[groups[k][a] as int] == self.root[groups[k][0] as int]
        &&& forall|k: int, a: int, b: int|
            0 <= k < groups.len() && 0 <= a < b < groups[k].len() ==> (#[trigger] groups[k][a])
                < #[trigger] groups[k][b]
        &&& forall|j: int, k: int|
            0 <= j < k < groups.len() ==> self.root[(#[trigger] groups[j])[0] as int]
                < self.root[(#[trigger] groups[k])[0] as int]
        &&& forall|i: int| 0 <= i < self.root.len() ==> #[trigger] listed(groups, i)
    }
}

/// Whether one of `groups` holds `i`.
pub open spec fn listed(groups: Seq<Seq<usize>>, i: int) -> bool {
    exists|k: int| 0 <= k < groups.len() && (#[trigger] groups[k]).contains(i as usize)
}

/// What a vector of vectors holds.
pub open spec fn rows(groups: Seq<Vec<usize>>) -> Seq<Seq<usize>> {
    Seq::new(groups.len(), |k: int| groups[k]@)
}

/// After a merge the components of the two elements have the elements of
/// both, and every other component has the elements it had.
pub proof fn lemma_union_sizes(f: Forest, x: int, y: int, i: int)
    requires
        f.wf(),
        f.mergeable(x, y),
        0 <= i < f.len(),
    ensures
        f.union(x, y).members(i).len() == if f.connected(i, x) || f.connected(i, y) {
            f.members(x).len() + f.members(y).len()
        } else {
            f.members(i).len()
        },
{
    let g = f.union(x, y);
    lemma_union(f, x, y);
    lemma_union_members(f, x, y);
    lemma_members(g, i);
    lemma_members(f, i);
    assert(f.root[f.root[x]] == f.root[x]);
    assert(f.root[f.root[y]] == f.root[y]);
    assert(f.root[f.root[i]] == f.root[i]);
    let w = f.winner(x, y);
    if f.connected(i, x) || f.connected(i, y) {
        assert(g.root[i] == w);
        assert(g.root[w] == w);
        assert(g.members(i) =~= g.members(w));
    } else {
        let r = f.root[i];
        assert(g.root[i] == r);
        assert(g.members(i) =~= g.members(r));
        assert(f.members(i) =~= f.members(r));
    }
}

/// In a forest of singletons every component has one element.
pub proof fn lemma_singleton_sizes(n: nat, i: int)
    requires
        0 <= i < n,
    ensures
        Forest::singletons(n).members(i).len() == 1,
{
    assert(Forest::singletons(n).members(i) =~= set![i]);
}

/// The representative that the parent links lead to from `i`.
pub open spec fn root_of(parent: Seq<usize>, weight: Seq<usize>, i: int) -> int
    decreases parent.len() - weight[i],
{
    if 0 <= i < parent.len() && parent.len() == weight.len() && parent[i] != i && parent[i]
        < parent.len() && weight[i] < weight[parent[i] as int] && weight[parent[i] as int]
        <= parent.len() {
        root_of(parent, weight, parent[i] as int)
    } else {
        i
    }
}

/// Whether `i` lies on the way that the parent links take from `x` to its
/// representative, `x` counted in and the representative left out.
pub open spec fn on_way(parent: Seq<usize>, weight: Seq<usize>, x: int, i: int) -> bool
    decreases parent.len() - weight[x],
{
    if 0 <= x < parent.len() && parent.len() == weight.len() && parent[x] != x && parent[x]
        < parent.len() && weight[x] < weight[parent[x] as int] && weight[parent[x] as int]
        <= parent.len() {
        i == x || on_way(parent, weight, parent[x] as int, i)
    } else {
        false
    }
}

/// No representative lies on a way.
pub proof fn lemma_on_way_not_root(parent: Seq<usize>, weight: Seq<usize>, x: int, i: int)
    requires
        0 <= i < parent.len(),
        parent[i] == i,
    ensures
        !on_way(parent, weight, x, i),
    decreases parent.len() - weight[x],
{
    if 0 <= x < parent.len() && parent.len() == weight.len() && parent[x] != x && parent[x]
        < parent.len() && weight[x] < weight[parent[x] as int] && weight[parent[x] as int]
        <= parent.len() {
        lemma_on_way_not_root(parent, weight, parent[x] as int, i);
    }
}

/// What lies on the way from `x` is no lighter than `x`, and the way goes
/// on from the parent of whatever lies on it, up to the representative.
pub proof fn lemma_on_way(parent: Seq<usize>, weight: Seq<usize>, x: int, i: int)
    requires
        links_ok(parent, weight),
        0 <= x < parent.len(),
        on_way(parent, weight, x, i),
    ensures
        0 <= i < parent.len(),
        parent[i] != i,
        weight[x] <= weight[i],
        root_of(parent, weight, i) == root_of(parent, weight, x),
        parent[parent[i] as int] != parent[i] ==> on_way(parent, weight, x, parent[i] as int),
    decreases parent.len() - weight[x],
{
    lemma_root_of(parent, weight, x);
    if i != x {
        lemma_on_way(parent, weight, parent[x] as int, i);
    } else {
        let next = parent[x] as int;
        if parent[next] != next {
            assert(weight[next] < weight[parent[next] as int]);
            assert(on_way(parent, weight, next, next));
        }
    }
}

/// Parent links stay inside the forest and lead to strictly greater
/// weights, none above the number of elements.
pub open spec fn links_ok(parent: Seq<usize>, weight: Seq<usize>) -> bool {
    &&& parent.len() == weight.len()
    &&& forall|i: int| 0 <= i < parent.len() ==> #[trigger] parent[i] < parent.len()
    &&& forall|i: int| 0 <= i < parent.len() ==> #[trigger] weight[i] <= parent.len()
    &&& forall|i: int|
        0 <= i < parent.len() && parent[i] != i ==> weight[i] < weight[#[trigger] parent[i] as int]
}

/// The links from any element end at an element that is its own parent, of
/// weight no lower, and an element and its parent have one representative.
pub proof fn lemma_root_of(parent: Seq<usize>, weight: Seq<usize>, i: int)
    requires
        links_ok(parent, weight),
        0 <= i < parent.len(),
    ensures
        0 <= root_of(parent, weight, i) < parent.len(),
        parent[root_of(parent, weight, i)] == root_of(parent, weight, i),
        weight[i] <= weight[root_of(parent, weight, i)],
        parent[i] != i ==> weight[i] < weight[root_of(parent, weight, i)],
        root_of(parent, weight, parent[i] as int) == root_of(parent, weight, i),
        parent[i] == i ==> root_of(parent, weight, i) == i,
    decreases parent.len() - weight[i],
{
    if parent[i] != i {
        lemma_root_of(parent, weight, parent[i] as int);
    }
}

/// The representatives that the links give, one per element.
pub open spec fn roots_of(parent: Seq<usize>, weight: Seq<usize>) -> Seq<int> {
    Seq::new(parent.len(), |i: int| root_of(parent, weight, i))
}

/// The forest that the link, size and rank arrays stand for.
pub open spec fn forest_of(parent: Seq<usize>, weight: Seq<usize>, rank: Seq<usize>) -> Forest {
    Forest { root: roots_of(parent, weight), rank: Seq::new(rank.len(), |i: int| rank[i] as nat) }
}

/// Arrays with sound links stand for a well-formed forest.
pub proof fn lemma_forest_of_wf(parent: Seq<usize>, weight: Seq<usize>, rank: Seq<usize>)
    requires
        links_ok(parent, weight),
        rank.len() == parent.len(),
    ensures
        forest_of(parent, weight, rank).wf(),
        forest_of(parent, weight, rank).len() == parent.len(),
{
    let f = forest_of(parent, weight, rank);
    assert forall|i: int| 0 <= i < f.root.len() implies 0 <= #[trigger] f.root[i] < f.root.len()
        && f.root[f.root[i]] == f.root[i] by {
        lemma_root_of(parent, weight, i);
        lemma_root_of(parent, weight, root_of(parent, weight, i));
    }
}

/// Pointing an element straight at its representative changes no
/// representative.
pub proof fn lemma_compress(parent: Seq<usize>, weight: Seq<usize>, x: int, i: int)
    requires
        links_ok(parent, weight),
        0 <= x < parent.len(),
        0 <= i < parent.len(),
    ensures
        links_ok(parent.update(x, root_of(parent, weight, x) as usize), weight),
        root_of(parent.update(x, root_of(parent, weight, x) as usize), weight, i) == root_of(
            parent,
            weight,
            i,
        ),
    decreases parent.len() - weight[i],
{
    let r = root_of(parent, weight, x);
    let p2 = parent.update(x, r as usize);
    lemma_root_of(parent, weight, x);
    lemma_root_of(parent, weight, i);
    assert(links_ok(p2, weight));
    if i == x {
        if r != x {
            lemma_compress(parent, weight, x, r);
        }
    } else if parent[i] != i {
        lemma_compress(parent, weight, x, parent[i] as int);
    }
}

/// Hanging one representative under another, which takes the weights of
/// both, moves the elements of the first to the second and leaves the
/// others where they were.
pub proof fn lemma_link(
    parent: Seq<usize>,
    weight: Seq<usize>,
    weight2: Seq<usize>,
    l: int,
    w: int,
    i: int,
)
    requires
        links_ok(parent, weight),
        0 <= l < parent.len(),
        0 <= w < parent.len(),
        0 <= i < parent.len(),
        l != w,
        parent[l] == l,
        parent[w] == w,
        parent.len() <= usize::MAX,
        weight[w] >= 1,
        weight[l] + weight[w] <= parent.len(),
        weight2 == weight.update(w, (weight[l] + weight[w]) as usize),
    ensures
        links_ok(parent.update(l, w as usize), weight2),
        root_of(parent.update(l, w as usize), weight2, i) == if root_of(parent, weight, i) == l {
            w
        } else {
            root_of(parent, weight, i)
        },
    decreases parent.len() - weight[i],
{
    let p2 = parent.update(l, w as usize);
    lemma_root_of(parent, weight, i);
    assert(links_ok(p2, weight2)) by {
        assert forall|k: int| 0 <= k < p2.len() && p2[k] != k implies weight2[k] < weight2[
            #[trigger] p2[k] as int] by {
            if k != l {
                assert(p2[k] == parent[k]);
                assert(parent[k] != k);
                assert(weight[k] < weight[parent[k] as int]);
                assert(k != w);
                assert(weight2[k] == weight[k]);
                assert(weight2[parent[k] as int] >= weight[parent[k] as int]);
            } else {
                assert(p2[k] == w);
            }
        }
    }
    if i == l {
        assert(p2[w] == w);
        assert(root_of(p2, weight2, w) == w);
    } else if i == w {
    } else if parent[i] != i {
        lemma_link(parent, weight, weight2, l, w, parent[i] as int);
        assert(p2[i] == parent[i]);
        assert(weight2[i] < weight2[p2[i] as int]);
    }
}

/// A partition of `n` elements into components, kept as a forest of parent
/// links.
pub struct UnionFind {
    parent: Vec<usize>,
    rank: Vec<usize>,
    size: Vec<usize>,
    components: usize,
}

impl View for UnionFind {
    type V = Forest;

    closed spec fn view(&self) -> Forest {
        forest_of(self.parent@, self.size@, self.rank@)
    }
}

impl UnionFind {
    /// The links are sound, every representative knows the size of its
    /// component, and the running count is the number of components.
    pub closed spec fn wf(&self) -> bool {
        &&& links_ok(self.parent@, self.size@)
        &&& self.rank@.len() == self.parent@.len()
        &&& self.components == self@.count()
        &&& forall|r: int|
            0 <= r < self.parent@.len() && self.parent@[r] == r ==> #[trigger] self.size@[r]
                == self@.members(r).len() && self.rank@[r] < self.size@[r]
    }

    /// The element that `i` links to; a representative links to itself.
    pub closed spec fn parent_of(&self, i: int) -> int {
        self.parent@[i] as int
    }

    /// Whether `i` lies on the way that the links take from `x` to its
    /// representative, `x` counted in and the representative left out.
    pub closed spec fn on_way(&self, x: int, i: int) -> bool {
        on_way(self.parent@, self.size@, x, i)
    }

    /// A well-formed structure stands for a well-formed forest.
    pub proof fn lemma_view_wf(&self)
        requires
            self.wf(),
        ensures
            self@.wf(),
            self@.len() <= usize::MAX,
            forall|i: int| 0 <= i < self@.len() ==> 0 <= #[trigger] self.parent_of(i) < self@.len(),
            forall|i: int|
                0 <= i < self@.len() ==> self@.root[#[trigger] self.parent_of(i)] == self@.root[i],
            forall|i: int|
                0 <= i < self@.len() ==> (self.parent_of(i) == i <==> #[trigger] self@.root[i]
                    == i),
    {
        lemma_forest_of_wf(self.parent@, self.size@, self.rank@);
        assert(self.parent.len() <= usize::MAX);
        assert forall|i: int| 0 <= i < self@.len() implies self@.root[#[trigger] self.parent_of(i)]
            == self@.root[i] && (self.parent_of(i) == i <==> self@.root[i] == i) by {
            lemma_root_of(self.parent@, self.size@, i);
        }
    }

    /// `n` elements, each a component of its own.
    pub fn new(n: usize) -> (uf: UnionFind)
        ensures
            uf.wf(),
            uf@ == Forest::singletons(n as nat),
            uf@.count() == n,
            forall|i: int| 0 <= i < n ==> (#[trigger] uf@.members(i)).len() == 1,
    {
        let mut parent: Vec<usize> = Vec::new();
        let mut i: usize = 0;
        while i < n
            invariant
                i <= n,
                parent@.len() == i,
                forall|k: int| 0 <= k < i ==> parent@[k] == k,
            decreases n - i,
        {
            parent.push(i);
            i += 1;
        }
        let uf = UnionFind { parent, rank: vec![0usize; n], size: vec![1usize; n], components: n };
        proof {
            lemma_fresh(uf.parent@, uf.size@, uf.rank@);
            lemma_singletons(n as nat);
            assert forall|r: int| 0 <= r < n implies (#[trigger] uf@.members(r)).len() == 1 by {
                lemma_singleton_sizes(n as nat, r);
            }
        }
        uf
    }

    /// The representative of `x`, with every element on the way linked
    /// straight to it. The partition stays as it was; an index outside the
    /// structure is returned unchanged.
    pub fn find(&mut self, x: usize) -> (r: usize)
        requires
            old(self).wf(),
        ensures
            final(self).wf(),
            final(self)@ == old(self)@,
            r == old(self)@.find(x as int),
            forall|i: int|
                0 <= i < old(self)@.len() ==> #[trigger] final(self).parent_of(i) == if old(self).on_way(x as int, i) {
                    r as int
                } else {
                    old(self).parent_of(i)
                },
    {
        if x < self.parent.len() {
            self.find_in(x)
        } else {
            x
        }
    }

    /// The representative of the element `x`, found by following the links
    /// up; a second pass then links every element on the way straight to it.
    #[verifier::rlimit(40)]
    #[verifier::rlimit(40)]
    fn find_in(&mut self, x: usize) -> (r: usize)
        requires
            old(self).wf(),
            x < old(self).parent@.len(),
        ensures
            final(self).wf(),
            final(self)@ == old(self)@,
            r == old(self)@.root[x as int],
            final(self).parent@[x as int] == r,
            final(self).parent@[r as int] == r,
            final(self).rank@ == old(self).rank@,
            final(self).size@ == old(self).size@,
            final(self).parent@.len() == old(self).parent@.len(),
            forall|i: int|
                0 <= i < old(self).parent@.len() ==> #[trigger] final(self).parent@[i] == if on_way(
                    old(self).parent@,
                    old(self).size@,
                    x as int,
                    i,
                ) {
                    r
                } else {
                    old(self).parent@[i]
                },
            forall|i: int|
                0 <= i < old(self).parent@.len() && old(self).parent@[i] == i ==> final(self).parent@[i] == i,
    {
        let ghost parent0 = self.parent@;
        let ghost size0 = self.size@;
        let ghost before = self@;
        let n = self.parent.len();
        let mut root: usize = x;
        while self.parent[root] != root
            invariant
                self.parent@ == parent0,
                self.size@ == size0,
                links_ok(parent0, size0),
                n == parent0.len(),
                root < n,
                root_of(parent0, size0, root as int) == root_of(parent0, size0, x as int),
            decreases n - size0[root as int],
        {
            proof {
                lemma_root_of(parent0, size0, root as int);
            }
            root = self.parent[root];
        }
        proof {
            lemma_root_of(parent0, size0, root as int);
            lemma_root_of(parent0, size0, x as int);
            if x != root {
                assert(on_way(parent0, size0, x as int, x as int));
            }
            assert forall|i: int| 0 <= i < n implies !on_way(parent0, size0, root as int, i) by {}
        }
        let mut cur: usize = x;
        while cur != root
            invariant
                self.wf(),
                self@ == before,
                self.size@ == size0,
                self.rank@ == old(self).rank@,
                self.parent@.len() == n,
                n == parent0.len(),
                links_ok(parent0, size0),
                links_ok(self.parent@, size0),
                cur < n,
                root < n,
                parent0[root as int] == root,
                root == root_of(parent0, size0, x as int),
                cur != root ==> on_way(parent0, size0, x as int, cur as int),
                forall|i: int| 0 <= i < n ==> root_of(self.parent@, size0, i) == root_of(parent0, size0, i),
                forall|i: int|
                    0 <= i < n ==> #[trigger] self.parent@[i] == if on_way(parent0, size0, x as int, i)
                        && !on_way(parent0, size0, cur as int, i) {
                        root
                    } else {
                        parent0[i]
                    },
            decreases n - size0[cur as int],
        {
            let ghost now = self.parent@;
            proof {
                lemma_on_way(parent0, size0, x as int, cur as int);
                lemma_root_of(parent0, size0, cur as int);
                assert(on_way(parent0, size0, cur as int, cur as int));
                assert(now[cur as int] == parent0[cur as int]);
                assert(root_of(now, size0, cur as int) == root);
            }
            let next = self.parent[cur];
            self.parent.set(cur, root);
            proof {
                let after = self.parent@;
                assert(after == now.update(cur as int, root_of(now, size0, cur as int) as usize));
                assert forall|i: int| 0 <= i < n implies root_of(after, size0, i) == root_of(
                    parent0,
                    size0,
                    i,
                ) by {
                    lemma_compress(now, size0, cur as int, i);
                }
                lemma_compress(now, size0, cur as int, cur as int);
                assert(self@.root =~= before.root);
                assert(self@ == before);
                assert forall|i: int| 0 <= i < n implies (on_way(parent0, size0, cur as int, i)
                    <==> (i == cur || on_way(parent0, size0, next as int, i))) by {}
                assert(!on_way(parent0, size0, next as int, cur as int)) by {
                    if on_way(parent0, size0, next as int, cur as int) {
                        lemma_on_way(parent0, size0, next as int, cur as int);
                    }
                }
                assert forall|i: int| 0 <= i < n implies #[trigger] after[i] == if on_way(
                    parent0,
                    size0,
                    x as int,
                    i,
                ) && !on_way(parent0, size0, next as int, i) {
                    root
                } else {
                    parent0[i]
                } by {
                    if i != cur && on_way(parent0, size0, next as int, i) {
                        lemma_on_way(parent0, size0, next as int, i);
                    }
                }
                assert forall|r2: int| 0 <= r2 < n && after[r2] == r2 implies #[trigger] self.size@[r2]
                    == self@.members(r2).len() && self.rank@[r2] < self.size@[r2] by {
                    if r2 == cur {
                    } else {
                        assert(now[r2] == r2);
                    }
                }
                if next != root {
                    assert(parent0[next as int] != next) by {
                        lemma_root_of(parent0, size0, next as int);
                    }
                }
            }
            cur = next;
        }
        proof {
            assert forall|i: int| 0 <= i < n && parent0[i] == i implies self.parent@[i] == i by {
                lemma_on_way_not_root(parent0, size0, x as int, i);
            }
            if x != root {
                assert(on_way(parent0, size0, x as int, x as int));
            }
        }
        root
    }
}

impl UnionFind {
    /// Joins the components of `x` and `y`: the representative of the
    /// component with more elements takes over the other, that of `x` where
    /// both have as many, and grows in rank where both have one rank.
    /// Returns whether two components merged: not where they were one
    /// already, nor where `x` or `y` is no element, and then nothing
    /// changes.
    #[verifier::rlimit(40)]
    pub fn union(&mut self, x: usize, y: usize) -> (merged: bool)
        requires
            old(self).wf(),
        ensures
            final(self).wf(),
            final(self)@ == old(self)@.union(x as int, y as int),
            merged == old(self)@.mergeable(x as int, y as int),
            merged ==> final(self)@.count() == old(self)@.count() - 1,
            merged ==> forall|i: int|
                0 <= i < old(self)@.len() ==> (#[trigger] final(self)@.members(i)).len() == if old(self)@.connected(i, x as int) || old(self)@.connected(i, y as int) {
                    old(self)@.members(x as int).len() + old(self)@.members(y as int).len()
                } else {
                    old(self)@.members(i).len()
                },
            !merged ==> final(self)@ == old(self)@,
    {
        let n = self.parent.len();
        if x >= n || y >= n {
            return false;
        }
        let root_x = self.find_in(x);
        let root_y = self.find_in(y);
        if root_x == root_y {
            return false;
        }
        let ghost f = self@;
        let ghost parent0 = self.parent@;
        let ghost rank0 = self.rank@;
        let ghost size0 = self.size@;
        proof {
            lemma_forest_of_wf(parent0, size0, rank0);
            lemma_union(f, x as int, y as int);
            lemma_union_members(f, x as int, y as int);
            lemma_members(f, x as int);
            lemma_members(f, y as int);
            assert(f.root[x as int] == root_x && f.root[y as int] == root_y);
            assert(size0[root_x as int] == f.members(root_x as int).len());
            assert(size0[root_y as int] == f.members(root_y as int).len());
        }
        let size_x = self.size[root_x];
        let size_y = self.size[root_y];
        let same_rank = self.rank[root_x] == self.rank[root_y];
        let total = size_x + size_y;
        let survivor = if size_x < size_y {
            root_y
        } else {
            root_x
        };
        let absorbed = if size_x < size_y {
            root_x
        } else {
            root_y
        };
        self.parent.set(absorbed, survivor);
        self.size.set(survivor, total);
        if same_rank {
            let bumped = self.rank[survivor] + 1;
            self.rank.set(survivor, bumped);
        }
        self.components -= 1;
        proof {
            let w = f.winner(x as int, y as int);
            let l = f.loser(x as int, y as int);
            let g = f.union(x as int, y as int);
            assert(w == survivor && l == absorbed);
            assert(self.parent@ == parent0.update(l, w as usize));
            assert(self.size@ == size0.update(w, (size0[l] + size0[w]) as usize));
            assert forall|i: int| 0 <= i < n implies root_of(self.parent@, self.size@, i)
                == g.root[i] by {
                lemma_link(parent0, size0, self.size@, l, w, i);
            }
            lemma_link(parent0, size0, self.size@, l, w, 0);
            assert(self@.root =~= g.root);
            assert(self@.rank =~= g.rank);
            assert(self@ == g);
            assert forall|i: int| 0 <= i < f.len() implies (#[trigger] g.members(i)).len() == if f.connected(
                i,
                x as int,
            ) || f.connected(i, y as int) {
                f.members(x as int).len() + f.members(y as int).len()
            } else {
                f.members(i).len()
            } by {
                lemma_union_sizes(f, x as int, y as int, i);
            }
            assert forall|r: int| 0 <= r < n && self.parent@[r] == r implies #[trigger] self.size@[r]
                == g.members(r).len() && self.rank@[r] < self.size@[r] by {
                lemma_root_of(parent0, size0, r);
                assert(r != l);
                assert(parent0[r] == r);
                if r != w {
                    assert(f.root[r] == r);
                    assert(f.members(r) == g.members(r));
                }
            }
        }
        true
    }

    /// Whether `x` and `y` are elements of one component.
    pub fn connected(&mut self, x: usize, y: usize) -> (c: bool)
        requires
            old(self).wf(),
        ensures
            final(self).wf(),
            final(self)@ == old(self)@,
            c == old(self)@.connected(x as int, y as int),
    {
        if x >= self.parent.len() || y >= self.parent.len() {
            return false;
        }
        let root_x = self.find_in(x);
        let root_y = self.find_in(y);
        root_x == root_y
    }

    /// The number of elements in the component of `x`; zero when `x` is no
    /// element.
    pub fn component_size(&mut self, x: usize) -> (s: usize)
        requires
            old(self).wf(),
        ensures
            final(self).wf(),
            final(self)@ == old(self)@,
            s == old(self)@.members(x as int).len(),
    {
        proof {
            lemma_forest_of_wf(self.parent@, self.size@, self.rank@);
            lemma_members(self@, x as int);
        }
        if x >= self.parent.len() {
            return 0;
        }
        let root = self.find_in(x);
        self.size[root]
    }

    /// The number of components.
    pub fn component_count(&self) -> (c: usize)
        ensures
            self.wf() ==> c == self@.count(),
    {
        self.components
    }

    /// Whether all elements are in one component.
    pub fn is_fully_connected(&self) -> (b: bool)
        ensures
            self.wf() ==> b == (self@.count() == 1),
    {
        self.components == 1
    }

    /// Makes every element a component of its own again.
    pub fn reset(&mut self)
        ensures
            final(self).wf(),
            final(self)@ == Forest::singletons(old(self)@.len()),
    {
        let n = self.parent.len();
        *self = UnionFind::new(n);
    }
}

impl UnionFind {
    /// The size of a largest component; zero where there is no element.
    pub fn max_component_size(&mut self) -> (m: usize)
        requires
            old(self).wf(),
        ensures
            final(self).wf(),
            final(self)@ == old(self)@,
            old(self)@.len() == 0 ==> m == 0,
            forall|i: int| 0 <= i < old(self)@.len() ==> old(self)@.members(i).len() <= m,
            old(self)@.len() > 0 ==> exists|i: int|
                0 <= i < old(self)@.len() && old(self)@.members(i).len() == m,
    {
        let n = self.parent.len();
        let mut max_size: usize = 0;
        let mut i: usize = 0;
        while i < n
            invariant
                self.wf(),
                self@ == old(self)@,
                n == self.parent@.len(),
                n == old(self)@.len(),
                i <= n,
                i == 0 ==> max_size == 0,
                forall|j: int| 0 <= j < i ==> old(self)@.members(j).len() <= max_size,
                i > 0 ==> exists|j: int| 0 <= j < i && old(self)@.members(j).len() == max_size,
            decreases n - i,
        {
            let root = self.find_in(i);
            let s = self.size[root];
            proof {
                lemma_forest_of_wf(self.parent@, self.size@, self.rank@);
                lemma_members(self@, i as int);
                assert(s == self@.members(i as int).len());
            }
            if i == 0 || s > max_size {
                max_size = s;
            }
            i += 1;
        }
        max_size
    }

    /// Joins every element of `elements` to the first. Returns whether any
    /// two components merged.
    pub fn union_all(&mut self, elements: &[usize]) -> (changed: bool)
        requires
            old(self).wf(),
        ensures
            final(self).wf(),
            final(self)@ == old(self)@.union_all(as_ints(elements@)),
            changed == (final(self)@.count() < old(self)@.count()),
            !changed ==> final(self)@ == old(self)@,
    {
        if elements.len() < 2 {
            return false;
        }
        let ghost all = as_ints(elements@);
        let mut changed = false;
        let mut i: usize = 1;
        proof {
            assert(old(self)@.union_all(all.take(1)) == old(self)@);
        }
        while i < elements.len()
            invariant
                self.wf(),
                all == as_ints(elements@),
                1 <= i <= elements.len(),
                self@ == old(self)@.union_all(all.take(i as int)),
                changed == (self@.count() < old(self)@.count()),
                !changed ==> self@ == old(self)@,
            decreases elements.len() - i,
        {
            let ghost before = self@;
            proof {
                lemma_forest_of_wf(self.parent@, self.size@, self.rank@);
                lemma_union(before, elements[0] as int, elements[i as int] as int);
                assert(all.take(i + 1).drop_last() =~= all.take(i as int));
                assert(all.take(i + 1)[0] == elements[0]);
                assert(all.take(i + 1).last() == elements[i as int]);
            }
            if self.union(elements[0], elements[i]) {
                changed = true;
            }
            i += 1;
        }
        proof {
            assert(all.take(elements.len() as int) =~= all);
        }
        changed
    }

    /// The representatives of all components, in ascending order.
    pub fn get_representatives(&mut self) -> (reps: Vec<usize>)
        requires
            old(self).wf(),
        ensures
            final(self).wf(),
            final(self)@ == old(self)@,
            reps@.len() == old(self)@.count(),
            old(self)@.lists_representatives(reps@, old(self)@.len() as int),
    {
        let n = self.parent.len();
        let ghost f = self@;
        let mut reps: Vec<usize> = Vec::new();
        let mut i: usize = 0;
        proof {
            lemma_forest_of_wf(self.parent@, self.size@, self.rank@);
            lemma_lists_none(f);
        }
        while i < n
            invariant
                self.wf(),
                self@ == f,
                f.wf(),
                n == self.parent@.len(),
                n == f.len(),
                i <= n,
                f.lists_representatives(reps@, i as int),
                reps@.len() == f.representatives_below(i as int).len(),
            decreases n - i,
        {
            let root = self.find_in(i);
            proof {
                lemma_lists_step(f, reps@, i as int);
            }
            if root == i {
                reps.push(i);
            }
            i += 1;
        }
        proof {
            lemma_lists_all(f, reps@);
        }
        reps
    }
}

/// Whether every row of `rows` holds, in ascending order, the elements
/// below `upto` whose representative is the index of the row.
pub open spec fn bucketed(f: Forest, rows: Seq<Seq<usize>>, upto: int) -> bool {
    &&& rows.len() == f.len()
    &&& forall|r: int, a: int|
        0 <= r < rows.len() && 0 <= a < rows[r].len() ==> (#[trigger] rows[r][a]) < upto
            && f.root[rows[r][a] as int] == r
    &&& forall|r: int, a: int, b: int|
        0 <= r < rows.len() && 0 <= a < b < rows[r].len() ==> (#[trigger] rows[r][a])
            < #[trigger] rows[r][b]
    &&& forall|j: int| 0 <= j < upto ==> (#[trigger] rows[f.root[j]]).contains(j as usize)
}

/// Putting the next element into the row of its representative.
pub proof fn lemma_bucket_step(f: Forest, rows: Seq<Seq<usize>>, i: int)
    requires
        f.wf(),
        0 <= i < f.len(),
        i <= usize::MAX,
        bucketed(f, rows, i),
    ensures
        bucketed(f, rows.update(f.root[i], rows[f.root[i]].push(i as usize)), i + 1),
{
    let root = f.root[i];
    let after = rows.update(root, rows[root].push(i as usize));
    assert forall|j: int| 0 <= j < i + 1 implies (#[trigger] after[f.root[j]]).contains(
        j as usize,
    ) by {
        if j < i {
            assert(rows[f.root[j]].contains(j as usize));
            let a = choose|a: int| 0 <= a < rows[f.root[j]].len() && rows[f.root[j]][a] == j as usize;
            assert(after[f.root[j]][a] == j as usize);
        } else {
            assert(after[root][rows[root].len() as int] == i as usize);
        }
    }
    assert forall|r: int, a: int| 0 <= r < after.len() && 0 <= a < after[r].len() implies (
    #[trigger] after[r][a]) < i + 1 && f.root[after[r][a] as int] == r by {
        if r != root || a < rows[root].len() {
            assert(after[r][a] == rows[r][a]);
        }
    }
    assert forall|r: int, a: int, b: int|
        0 <= r < after.len() && 0 <= a < b < after[r].len() implies (#[trigger] after[r][a])
        < #[trigger] after[r][b] by {
        if r != root || b < rows[root].len() {
            assert(after[r][a] == rows[r][a] && after[r][b] == rows[r][b]);
        } else {
            assert(after[r][a] == rows[r][a]);
        }
    }
}

/// A row holds elements exactly where its index is a representative.
pub proof fn lemma_bucket_roots(f: Forest, rows: Seq<Seq<usize>>, q: int)
    requires
        f.wf(),
        bucketed(f, rows, f.len() as int),
        0 <= q < f.len(),
    ensures
        rows[q].len() > 0 <==> f.root[q] == q,
{
    if rows[q].len() > 0 {
        assert(f.root[rows[q][0] as int] == q);
    } else if f.root[q] == q {
        assert(rows[f.root[q]].contains(q as usize));
    }
}

/// Whether `groups` holds the rows of `filled` that are not empty and have
/// an index below `upto`, in the order of the indices, which `reps` lists.
pub open spec fn collected(
    f: Forest,
    filled: Seq<Seq<usize>>,
    groups: Seq<Seq<usize>>,
    reps: Seq<int>,
    upto: int,
) -> bool {
    &&& reps.len() == groups.len()
    &&& groups.len() == f.representatives_below(upto).len()
    &&& forall|k: int|
        0 <= k < reps.len() ==> 0 <= #[trigger] reps[k] < upto && groups[k] == filled[reps[k]]
            && filled[reps[k]].len() > 0
    &&& forall|j: int, k: int| 0 <= j < k < reps.len() ==> #[trigger] reps[j] < #[trigger] reps[k]
    &&& forall|q: int|
        0 <= q < upto && #[trigger] f.root[q] == q ==> exists|k: int|
            0 <= k < reps.len() && #[trigger] reps[k] == q
}

/// Taking the next row where it is not empty.
pub proof fn lemma_collect_step(
    f: Forest,
    filled: Seq<Seq<usize>>,
    groups: Seq<Seq<usize>>,
    reps: Seq<int>,
    r: int,
)
    requires
        f.wf(),
        bucketed(f, filled, f.len() as int),
        0 <= r < f.len(),
        collected(f, filled, groups, reps, r),
    ensures
        filled[r].len() > 0 ==> collected(f, filled, groups.push(filled[r]), reps.push(r), r + 1),
        filled[r].len() == 0 ==> collected(f, filled, groups, reps, r + 1),
{
    lemma_representatives_step(f, r);
    lemma_bucket_roots(f, filled, r);
    if filled[r].len() > 0 {
        let groups2 = groups.push(filled[r]);
        let reps2 = reps.push(r);
        assert forall|q: int| 0 <= q < r + 1 && #[trigger] f.root[q] == q implies exists|k: int|
            0 <= k < reps2.len() && #[trigger] reps2[k] == q by {
            if q < r {
                let k = choose|k: int| 0 <= k < reps.len() && #[trigger] reps[k] == q;
                assert(reps2[k] == q);
            } else {
                assert(reps2[reps.len() as int] == q);
            }
        }
        assert forall|k: int| 0 <= k < reps2.len() implies 0 <= #[trigger] reps2[k] < r + 1
            && groups2[k] == filled[reps2[k]] && filled[reps2[k]].len() > 0 by {
            if k < reps.len() {
                assert(reps2[k] == reps[k]);
            }
        }
        assert forall|j: int, k: int| 0 <= j < k < reps2.len() implies #[trigger] reps2[j]
            < #[trigger] reps2[k] by {
            if k < reps.len() {
                assert(reps2[j] == reps[j] && reps2[k] == reps[k]);
            } else {
                assert(reps2[j] == reps[j]);
            }
        }
    }
}

/// The rows that are not empty, taken in order, are the components.
pub proof fn lemma_collect_done(
    f: Forest,
    filled: Seq<Seq<usize>>,
    groups: Seq<Seq<usize>>,
    reps: Seq<int>,
)
    requires
        f.wf(),
        bucketed(f, filled, f.len() as int),
        collected(f, filled, groups, reps, f.len() as int),
    ensures
        f.grouped_as(groups),
{
    let n = f.len() as int;
    assert(f.representatives_below(n) =~= f.representatives());
    assert forall|k: int, a: int| 0 <= k < groups.len() && 0 <= a < groups[k].len() implies (
    #[trigger] groups[k][a]) < f.root.len() && f.root[groups[k][a] as int] == reps[k] by {
        assert(groups[k] == filled[reps[k]]);
    }
    assert forall|k: int, a: int, b: int|
        0 <= k < groups.len() && 0 <= a < b < groups[k].len() implies (#[trigger] groups[k][a])
        < #[trigger] groups[k][b] by {
        assert(groups[k] == filled[reps[k]]);
    }
    assert forall|j: int, k: int| 0 <= j < k < groups.len() implies f.root[(
    #[trigger] groups[j])[0] as int] < f.root[(#[trigger] groups[k])[0] as int] by {
        assert(groups[j] == filled[reps[j]]);
        assert(groups[k] == filled[reps[k]]);
        assert(f.root[groups[j][0] as int] == reps[j]);
        assert(f.root[groups[k][0] as int] == reps[k]);
    }
    assert forall|i: int| 0 <= i < f.root.len() implies #[trigger] listed(groups, i) by {
        let q = f.root[i];
        assert(f.root[q] == q);
        let k = choose|k: int| 0 <= k < reps.len() && #[trigger] reps[k] == q;
        assert(groups[k] == filled[q]);
        assert(filled[f.root[i]].contains(i as usize));
        assert(groups[k].contains(i as usize));
    }
    assert forall|k: int| 0 <= k < groups.len() implies (#[trigger] groups[k]).len() > 0 by {
        assert(groups[k] == filled[reps[k]]);
    }
}

impl UnionFind {
    /// The components, one vector each, ordered by representative; every
    /// vector lists the elements of its component in ascending order.
    #[verifier::rlimit(40)]
    pub fn get_components(&mut self) -> (groups: Vec<Vec<usize>>)
        requires
            old(self).wf(),
        ensures
            final(self).wf(),
            final(self)@ == old(self)@,
            old(self)@.grouped_as(rows(groups@)),
    {
        let n = self.parent.len();
        let ghost f = self@;
        proof {
            lemma_forest_of_wf(self.parent@, self.size@, self.rank@);
        }
        let mut buckets: Vec<Vec<usize>> = Vec::new();
        let mut i: usize = 0;
        while i < n
            invariant
                i <= n,
                buckets@.len() == i,
                forall|r: int| 0 <= r < i ==> (#[trigger] buckets@[r])@.len() == 0,
            decreases n - i,
        {
            buckets.push(Vec::new());
            i += 1;
        }
        i = 0;
        proof {
            assert(bucketed(f, rows(buckets@), 0));
        }
        while i < n
            invariant
                self.wf(),
                self@ == f,
                f.wf(),
                n == self.parent@.len(),
                n == f.len(),
                i <= n,
                buckets@.len() == n,
                bucketed(f, rows(buckets@), i as int),
            decreases n - i,
        {
            let root = self.find_in(i);
            let ghost before = rows(buckets@);
            buckets[root].push(i);
            proof {
                assert(rows(buckets@) =~= before.update(root as int, before[root as int].push(i)));
                lemma_bucket_step(f, before, i as int);
            }
            i += 1;
        }
        let ghost filled = rows(buckets@);
        let ghost mut reps: Seq<int> = Seq::empty();
        let mut groups: Vec<Vec<usize>> = Vec::new();
        let mut r: usize = 0;
        proof {
            assert(f.representatives_below(0) =~= Set::empty());
            assert(collected(f, filled, rows(groups@), reps, 0));
        }
        while r < n
            invariant
                f.wf(),
                n == f.len(),
                r <= n,
                buckets@.len() == n,
                filled.len() == n,
                bucketed(f, filled, n as int),
                forall|q: int| r <= q < n ==> (#[trigger] buckets@[q])@ == filled[q],
                collected(f, filled, rows(groups@), reps, r as int),
            decreases n - r,
        {
            proof {
                lemma_collect_step(f, filled, rows(groups@), reps, r as int);
            }
            if buckets[r].len() > 0 {
                let mut group: Vec<usize> = Vec::new();
                std::mem::swap(&mut group, &mut buckets[r]);
                let ghost before = rows(groups@);
                groups.push(group);
                proof {
                    reps = reps.push(r as int);
                    assert(rows(groups@) =~= before.push(filled[r as int]));
                }
            }
            r += 1;
        }
        proof {
            lemma_collect_done(f, filled, rows(groups@), reps);
        }
        groups
    }
}

/// Elements that are their own parents, of size one and rank zero, are
/// singletons.
proof fn lemma_fresh(parent: Seq<usize>, size: Seq<usize>, rank: Seq<usize>)
    requires
        parent.len() == rank.len(),
        parent.len() == size.len(),
        forall|k: int| 0 <= k < parent.len() ==> parent[k] == k,
        forall|k: int| 0 <= k < rank.len() ==> rank[k] == 0,
        forall|k: int| 0 <= k < size.len() ==> size[k] == 1,
    ensures
        links_ok(parent, size),
        forest_of(parent, size, rank) == Forest::singletons(parent.len()),
{
    assert(forest_of(parent, size, rank).root =~= Forest::singletons(parent.len()).root);
    assert(forest_of(parent, size, rank).rank =~= Forest::singletons(parent.len()).rank);
}

} // verus!
