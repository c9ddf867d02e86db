//! Breadth-first search: distances counted in edges.

use vstd::prelude::*;
use std::collections::VecDeque;
use crate::graph::{Graph, GraphView};

verus! {

impl GraphView {
    /// Whether a walk of `len` edges leads from `a` to `b`.
    pub open spec fn walk_of_length(self, a: int, b: int, len: int) -> bool {
        exists|walk: Seq<int>| #[trigger] self.walks(walk, a, b) && walk.len() == len + 1
    }

    /// Whether the first `upto` unweighted edges of `x` end at vertices
    /// that have a level, at most one above that of `x`.
    pub open spec fn adj_done(self, dist: Seq<i32>, x: int, upto: int) -> bool {
        forall|k: int|
            0 <= k < upto ==> 0 <= dist[#[trigger] self.adj[x][k] as int] <= dist[x] + 1
    }

    /// Whether the first `upto` weighted edges of `x` end at vertices that
    /// have a level, at most one above that of `x`.
    pub open spec fn weighted_done(self, dist: Seq<i32>, x: int, upto: int) -> bool {
        forall|k: int|
            0 <= k < upto ==> 0 <= dist[(#[trigger] self.weighted_adj[x][k]).0 as int] <= dist[x]
                + 1
    }

    /// Whether all edges of `x` end at vertices that have a level, at most
    /// one above that of `x`.
    pub open spec fn done_with(self, dist: Seq<i32>, x: int) -> bool {
        self.adj_done(dist, x, self.adj[x].len() as int) && self.weighted_done(
            dist,
            x,
            self.weighted_adj[x].len() as int,
        )
    }

    /// Whether `dist` gives every vertex its level as seen from `start`:
    /// `start` has level zero, a level other than -1 is the length of a
    /// walk from `start`, and an edge leads from a vertex with a level to
    /// one with a level at most one higher.
    pub open spec fn levels(self, start: int, dist: Seq<i32>) -> bool {
        &&& dist.len() == self.n()
        &&& dist[start] == 0
        &&& forall|v: int| 0 <= v < self.n() ==> #[trigger] dist[v] >= -1
        &&& forall|v: int|
            0 <= v < self.n() && #[trigger] dist[v] >= 0 ==> self.walk_of_length(start, v, dist[v] as int)
        &&& forall|x: int| 0 <= x < self.n() && dist[x] >= 0 ==> #[trigger] self.done_with(dist, x)
    }
}

/// Levels are distances: a vertex that a walk from `start` reaches has a
/// level, and the walk has at least as many edges.
pub proof fn lemma_levels_shortest(g: GraphView, start: int, dist: Seq<i32>, walk: Seq<int>)
    requires
        g.wf(),
        0 <= start < g.n(),
        g.levels(start, dist),
        g.is_walk(walk),
        walk[0] == start,
    ensures
        0 <= walk.last() < g.n(),
        0 <= dist[walk.last()] <= walk.len() - 1,
    decreases walk.len(),
{
    if walk.len() > 1 {
        let shorter = walk.drop_last();
        assert forall|k: int| 0 <= k < shorter.len() - 1 implies g.step(
            #[trigger] shorter[k],
            shorter[k + 1],
        ) by {
            assert(g.step(walk[k], walk[k + 1]));
        }
        lemma_levels_shortest(g, start, dist, shorter);
        let x = walk[walk.len() - 2];
        let y = walk.last();
        assert(shorter.last() == x);
        assert(g.step(walk[walk.len() - 2], walk[walk.len() - 2 + 1]));
        assert(g.done_with(dist, x));
        if exists|i: int| 0 <= i < g.adj[x].len() && #[trigger] g.adj[x][i] == y {
            let i = choose|i: int| 0 <= i < g.adj[x].len() && #[trigger] g.adj[x][i] == y;
            assert(g.adj[x][i] < g.adj.len());
        } else {
            let i = choose|i: int|
                0 <= i < g.weighted_adj[x].len() && (#[trigger] g.weighted_adj[x][i]).0 == y;
            assert(g.weighted_adj[x][i].0 < g.adj.len());
        }
    }
}

/// The number of entries of `dist` that are not -1.
pub open spec fn levelled(dist: Seq<i32>) -> nat
    decreases dist.len(),
{
    if dist.len() == 0 {
        0
    } else {
        levelled(dist.drop_last()) + if dist.last() != -1 {
            1nat
        } else {
            0nat
        }
    }
}

/// Giving a level to an entry that had none raises the count of levelled
/// entries by one; the count is never more than the number of entries.
pub proof fn lemma_levelled(dist: Seq<i32>, v: int, level: i32)
    requires
        0 <= v < dist.len(),
        dist[v] == -1,
        level != -1,
    ensures
        levelled(dist.update(v, level)) == levelled(dist) + 1,
        levelled(dist.update(v, level)) <= dist.len(),
    decreases dist.len(),
{
    let after = dist.update(v, level);
    if v == dist.len() - 1 {
        assert(after.drop_last() =~= dist.drop_last());
        lemma_levelled_bound(dist.drop_last());
    } else {
        assert(after.drop_last() =~= dist.drop_last().update(v, level));
        lemma_levelled(dist.drop_last(), v, level);
    }
}

/// No more entries are levelled than there are.
pub proof fn lemma_levelled_bound(dist: Seq<i32>)
    ensures
        levelled(dist) <= dist.len(),
    decreases dist.len(),
{
    if dist.len() > 0 {
        lemma_levelled_bound(dist.drop_last());
    }
}

/// Whether `queue` holds `x`.
pub open spec fn waiting(queue: Seq<usize>, x: int) -> bool {
    exists|i: int| 0 <= i < queue.len() && #[trigger] queue[i] == x
}

/// What holds of the levels and the queue throughout, `bound` being the
/// level of the vertex that is looked at or comes next.
pub open spec fn search_ok(
    g: GraphView,
    start: int,
    dist: Seq<i32>,
    queue: Seq<usize>,
    bound: int,
) -> bool {
    &&& g.wf()
    &&& g.n() <= i32::MAX
    &&& 0 <= start < g.n()
    &&& dist.len() == g.n()
    &&& dist[start] == 0
    &&& forall|v: int| 0 <= v < g.n() ==> -1 <= #[trigger] dist[v] < levelled(dist)
    &&& forall|v: int| 0 <= v < g.n() ==> #[trigger] dist[v] <= bound + 1
    &&& forall|v: int|
        0 <= v < g.n() && #[trigger] dist[v] >= 0 ==> g.walk_of_length(start, v, dist[v] as int)
    &&& forall|i: int|
        0 <= i < queue.len() ==> (#[trigger] queue[i]) < g.n() && bound <= dist[queue[i] as int]
            && 0 <= dist[queue[i] as int]
    &&& forall|i: int, j: int|
        0 <= i <= j < queue.len() ==> dist[#[trigger] queue[i] as int] <= dist[
        #[trigger] queue[j] as int]
}

/// What holds between two vertices taken from the queue.
pub open spec fn between_visits(g: GraphView, start: int, dist: Seq<i32>, queue: Seq<usize>) -> bool {
    &&& search_ok(
        g,
        start,
        dist,
        queue,
        if queue.len() > 0 {
            dist[queue[0] as int] as int
        } else {
            g.n() as int
        },
    )
    &&& forall|x: int|
        0 <= x < g.n() && dist[x] >= 0 ==> waiting(queue, x) || #[trigger] g.done_with(dist, x)
}

/// What holds while the edges of `u` are looked at.
pub open spec fn within_visit(
    g: GraphView,
    start: int,
    dist: Seq<i32>,
    queue: Seq<usize>,
    u: int,
    plain: int,
    weighted: int,
) -> bool {
    &&& 0 <= u < g.n()
    &&& dist[u] >= 0
    &&& search_ok(g, start, dist, queue, dist[u] as int)
    &&& 0 <= plain <= g.adj[u].len()
    &&& 0 <= weighted <= g.weighted_adj[u].len()
    &&& forall|x: int|
        0 <= x < g.n() && x != u && dist[x] >= 0 ==> waiting(queue, x) || #[trigger] g.done_with(
            dist,
            x,
        )
    &&& g.adj_done(dist, u, plain)
    &&& g.weighted_done(dist, u, weighted)
}

/// Before the first vertex is taken only the start has a level, and it
/// waits in the queue.
proof fn lemma_search_begins(g: GraphView, start: int, dist: Seq<i32>, queue: Seq<usize>)
    requires
        g.wf(),
        g.n() <= i32::MAX,
        0 <= start < g.n(),
        dist.len() == g.n(),
        forall|v: int| 0 <= v < g.n() ==> #[trigger] dist[v] == if v == start {
            0i32
        } else {
            -1i32
        },
        queue == seq![start as usize],
    ensures
        between_visits(g, start, dist, queue),
{
    let blank = Seq::new(g.n(), |v: int| -1i32);
    assert(dist =~= blank.update(start, 0));
    lemma_levelled(blank, start, 0);
    assert(g.walks(seq![start], start, start));
    assert(queue[0] == start);
    assert(waiting(queue, start));
}

/// Taking the first vertex out of the queue leaves it to be looked at.
#[verifier::rlimit(40)]
proof fn lemma_visit_begins(
    g: GraphView,
    start: int,
    dist: Seq<i32>,
    before: Seq<usize>,
    after: Seq<usize>,
)
    requires
        between_visits(g, start, dist, before),
        before.len() > 0,
        after == before.subrange(1, before.len() as int),
    ensures
        within_visit(g, start, dist, after, before[0] as int, 0, 0),
{
    let u = before[0] as int;
    assert(before[0] < g.n() && 0 <= dist[before[0] as int]);
    assert forall|i: int| 0 <= i < after.len() implies (#[trigger] after[i]) < g.n() && dist[u]
        <= dist[after[i] as int] && 0 <= dist[after[i] as int] by {
        assert(after[i] == before[i + 1]);
        assert(dist[before[0] as int] <= dist[before[i + 1] as int]);
    }
    assert forall|i: int, j: int| 0 <= i <= j < after.len() implies dist[#[trigger] after[i] as int]
        <= dist[#[trigger] after[j] as int] by {
        assert(after[i] == before[i + 1]);
        assert(after[j] == before[j + 1]);
        assert(dist[before[i + 1] as int] <= dist[before[j + 1] as int]);
    }
    assert forall|x: int| 0 <= x < g.n() && x != u && dist[x] >= 0 implies waiting(after, x)
        || #[trigger] g.done_with(dist, x) by {
        if waiting(before, x) {
            let i = choose|i: int| 0 <= i < before.len() && #[trigger] before[i] == x;
            assert(after[i - 1] == x);
        }
    }
}

/// Once all edges of a vertex have been looked at, the search is between
/// two visits again.
proof fn lemma_visit_ends(g: GraphView, start: int, dist: Seq<i32>, queue: Seq<usize>, u: int)
    requires
        within_visit(
            g,
            start,
            dist,
            queue,
            u,
            g.adj[u].len() as int,
            g.weighted_adj[u].len() as int,
        ),
    ensures
        between_visits(g, start, dist, queue),
{
    lemma_levelled_bound(dist);
    if queue.len() > 0 {
        assert(dist[u] <= dist[queue[0] as int]);
        assert forall|i: int| 0 <= i < queue.len() implies dist[queue[0] as int] <= dist[
        #[trigger] queue[i] as int] by {
            assert(dist[queue[0] as int] <= dist[queue[i] as int]);
        }
    }
    assert(g.done_with(dist, u));
}

/// Looking at an edge of `u` that ends at a vertex with a level.
proof fn lemma_edge_seen(
    g: GraphView,
    start: int,
    dist: Seq<i32>,
    queue: Seq<usize>,
    u: int,
    plain: int,
    weighted: int,
    v: int,
    is_plain: bool,
)
    requires
        within_visit(g, start, dist, queue, u, plain, weighted),
        0 <= v < g.n(),
        dist[v] != -1,
        is_plain ==> plain < g.adj[u].len() && g.adj[u][plain] == v,
        !is_plain ==> weighted < g.weighted_adj[u].len() && g.weighted_adj[u][weighted].0 == v,
    ensures
        is_plain ==> within_visit(g, start, dist, queue, u, plain + 1, weighted),
        !is_plain ==> within_visit(g, start, dist, queue, u, plain, weighted + 1),
{
}

/// Looking at an edge of `u` that ends at a vertex without a level: the
/// vertex takes the level above that of `u` and joins the queue.
#[verifier::rlimit(40)]
proof fn lemma_edge_found(
    g: GraphView,
    start: int,
    dist: Seq<i32>,
    queue: Seq<usize>,
    u: int,
    plain: int,
    weighted: int,
    v: int,
    is_plain: bool,
)
    requires
        within_visit(g, start, dist, queue, u, plain, weighted),
        0 <= v < g.n(),
        dist[v] == -1,
        is_plain ==> plain < g.adj[u].len() && g.adj[u][plain] == v,
        !is_plain ==> weighted < g.weighted_adj[u].len() && g.weighted_adj[u][weighted].0 == v,
    ensures
        dist[u] + 1 <= i32::MAX,
        levelled(dist.update(v, (dist[u] + 1) as i32)) == levelled(dist) + 1,
        levelled(dist) < g.n(),
        is_plain ==> within_visit(
            g,
            start,
            dist.update(v, (dist[u] + 1) as i32),
            queue.push(v as usize),
            u,
            plain + 1,
            weighted,
        ),
        !is_plain ==> within_visit(
            g,
            start,
            dist.update(v, (dist[u] + 1) as i32),
            queue.push(v as usize),
            u,
            plain,
            weighted + 1,
        ),
{
    lemma_levelled_bound(dist);
    assert(dist[u] < levelled(dist));
    let level = (dist[u] + 1) as i32;
    let dist2 = dist.update(v, level);
    let queue2 = queue.push(v as usize);
    lemma_levelled(dist, v, level);
    assert(g.step(u, v));
    assert(g.walk_of_length(start, v, level as int)) by {
        let walk = choose|walk: Seq<int>| #[trigger] g.walks(walk, start, u) && walk.len() == dist[u] + 1;
        let longer = walk.push(v);
        assert forall|k: int| 0 <= k < longer.len() - 1 implies g.step(
            #[trigger] longer[k],
            longer[k + 1],
        ) by {
            if k < walk.len() - 1 {
                assert(g.step(walk[k], walk[k + 1]));
            }
        }
        assert(g.walks(longer, start, v));
    }
    assert forall|x: int| 0 <= x < g.n() && #[trigger] dist2[x] >= 0 implies g.walk_of_length(
        start,
        x,
        dist2[x] as int,
    ) by {
        if x != v {
            assert(dist[x] >= 0);
        }
    }
    assert forall|x: int| 0 <= x < g.n() && x != u && dist2[x] >= 0 implies waiting(queue2, x)
        || #[trigger] g.done_with(dist2, x) by {
        if x == v {
            assert(queue2[queue.len() as int] == v);
        } else if waiting(queue, x) {
            let i = choose|i: int| 0 <= i < queue.len() && #[trigger] queue[i] == x;
            assert(queue2[i] == x);
        } else {
            assert(g.done_with(dist, x));
            assert(g.adj_done(dist2, x, g.adj[x].len() as int)) by {
                assert forall|k: int| 0 <= k < g.adj[x].len() implies 0 <= dist2[
                #[trigger] g.adj[x][k] as int] <= dist2[x] + 1 by {
                    assert(0 <= dist[g.adj[x][k] as int]);
                }
            }
            assert(g.weighted_done(dist2, x, g.weighted_adj[x].len() as int)) by {
                assert forall|k: int| 0 <= k < g.weighted_adj[x].len() implies 0 <= dist2[(
                #[trigger] g.weighted_adj[x][k]).0 as int] <= dist2[x] + 1 by {
                    assert(0 <= dist[g.weighted_adj[x][k].0 as int]);
                }
            }
        }
    }
    assert forall|i: int| 0 <= i < queue2.len() implies (#[trigger] queue2[i]) < g.n() && dist[u]
        <= dist2[queue2[i] as int] && 0 <= dist2[queue2[i] as int] by {
        if i < queue.len() {
            assert(queue[i] == queue2[i]);
        }
    }
    assert forall|i: int, j: int| 0 <= i <= j < queue2.len() implies dist2[
    #[trigger] queue2[i] as int] <= dist2[#[trigger] queue2[j] as int] by {
        if j < queue.len() {
            assert(queue[i] == queue2[i] && queue[j] == queue2[j]);
            assert(dist[queue[i] as int] <= dist[queue[j] as int]);
        } else if i < queue.len() {
            assert(queue[i] == queue2[i]);
        }
    }
    let plain2 = if is_plain {
        plain + 1
    } else {
        plain
    };
    let weighted2 = if is_plain {
        weighted
    } else {
        weighted + 1
    };
    assert(g.adj_done(dist2, u, plain2)) by {
        assert forall|k: int| 0 <= k < plain2 implies 0 <= dist2[#[trigger] g.adj[u][k] as int]
            <= dist2[u] + 1 by {
            if k < plain {
                assert(0 <= dist[g.adj[u][k] as int]);
            }
        }
    }
    assert(g.weighted_done(dist2, u, weighted2)) by {
        assert forall|k: int| 0 <= k < weighted2 implies 0 <= dist2[(
        #[trigger] g.weighted_adj[u][k]).0 as int] <= dist2[u] + 1 by {
            if k < weighted {
                assert(0 <= dist[g.weighted_adj[u][k].0 as int]);
            }
        }
    }
    assert(search_ok(g, start, dist2, queue2, dist2[u] as int));
}

impl Graph {
    /// For every vertex the least number of edges, weighted or not, on a
    /// way to it from `start`; -1 where edges lead to it from nowhere.
    #[verifier::rlimit(40)]
    pub fn bfs(&self, start: usize) -> (distances: Vec<i32>)
        requires
            self.wf(),
            start < self@.n(),
            self@.n() <= i32::MAX,
        ensures
            self@.levels(start as int, distances@),
    {
        let ghost g = self@;
        let n = self.n;
        let mut distances: Vec<i32> = vec![-1i32; n];
        let mut queue: VecDeque<usize> = VecDeque::new();
        distances.set(start, 0);
        queue.push_back(start);
        proof {
            assert(queue@ =~= seq![start]);
            lemma_search_begins(g, start as int, distances@, queue@);
        }
        while queue.len() > 0
            invariant
                self.wf(),
                g == self@,
                n == g.n(),
                between_visits(g, start as int, distances@, queue@),
            decreases n - levelled(distances@), queue@.len(),
        {
            let ghost waiting_before = queue@;
            let ghost levelled_before = levelled(distances@);
            let front = queue.pop_front();
            let u = front.unwrap();
            proof {
                lemma_visit_begins(g, start as int, distances@, waiting_before, queue@);
                lemma_levelled_bound(distances@);
            }
            let mut i: usize = 0;
            while i < self.adj[u].len()
                invariant
                    self.wf(),
                    g == self@,
                    n == g.n(),
                    u < n,
                    i <= g.adj[u as int].len(),
                    within_visit(g, start as int, distances@, queue@, u as int, i as int, 0),
                    levelled_before <= levelled(distances@) <= n,
                    levelled(distances@) == levelled_before ==> queue@.len() == waiting_before.len()
                        - 1,
                decreases g.adj[u as int].len() - i,
            {
                let v = self.adj[u][i];
                proof {
                    assert(g.adj[u as int][i as int] == v);
                    assert(v < g.adj.len());
                }
                if distances[v] == -1 {
                    proof {
                        lemma_edge_found(
                            g,
                            start as int,
                            distances@,
                            queue@,
                            u as int,
                            i as int,
                            0,
                            v as int,
                            true,
                        );
                    }
                    let level = distances[u] + 1;
                    distances.set(v, level);
                    queue.push_back(v);
                } else {
                    proof {
                        lemma_edge_seen(
                            g,
                            start as int,
                            distances@,
                            queue@,
                            u as int,
                            i as int,
                            0,
                            v as int,
                            true,
                        );
                    }
                }
                i += 1;
            }
            let mut j: usize = 0;
            while j < self.weighted_adj[u].len()
                invariant
                    self.wf(),
                    g == self@,
                    n == g.n(),
                    u < n,
                    j <= g.weighted_adj[u as int].len(),
                    within_visit(
                        g,
                        start as int,
                        distances@,
                        queue@,
                        u as int,
                        g.adj[u as int].len() as int,
                        j as int,
                    ),
                    levelled_before <= levelled(distances@) <= n,
                    levelled(distances@) == levelled_before ==> queue@.len() == waiting_before.len()
                        - 1,
                decreases g.weighted_adj[u as int].len() - j,
            {
                let v = self.weighted_adj[u][j].0;
                proof {
                    assert(g.weighted_adj[u as int][j as int].0 == v);
                    assert(v < g.adj.len());
                }
                if distances[v] == -1 {
                    proof {
                        lemma_edge_found(
                            g,
                            start as int,
                            distances@,
                            queue@,
                            u as int,
                            g.adj[u as int].len() as int,
                            j as int,
                            v as int,
                            false,
                        );
                    }
                    let level = distances[u] + 1;
                    distances.set(v, level);
                    queue.push_back(v);
                } else {
                    proof {
                        lemma_edge_seen(
                            g,
                            start as int,
                            distances@,
                            queue@,
                            u as int,
                            g.adj[u as int].len() as int,
                            j as int,
                            v as int,
                            false,
                        );
                    }
                }
                j += 1;
            }
            proof {
                lemma_visit_ends(g, start as int, distances@, queue@, u as int);
            }
        }
        proof {
            assert forall|x: int| 0 <= x < g.n() && distances@[x] >= 0 implies #[trigger] g.done_with(
                distances@,
                x,
            ) by {
                assert(!waiting(queue@, x));
            }
        }
        distances
    }
}

} // verus!
