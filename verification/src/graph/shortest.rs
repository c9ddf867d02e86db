//! Shortest paths over the weighted edges of a graph.

use vstd::prelude::*;
use crate::graph::queue::{holds, MinQueue};
use crate::graph::{Graph, GraphView};
use crate::utils::array::{reverse_range, reversed_range};

verus! {

/// The sum of `a` and `b`, held at the ends of the range of `i64`.
pub open spec fn sat_add(a: i64, b: i64) -> i64 {
    if a + b > i64::MAX {
        i64::MAX
    } else if a + b < i64::MIN {
        i64::MIN
    } else {
        (a + b) as i64
    }
}

/// The weights of `weights` added up from the left, each sum held at the
/// ends of the range of `i64`.
pub open spec fn sat_sum(weights: Seq<i64>) -> i64
    decreases weights.len(),
{
    if weights.len() == 0 {
        0
    } else {
        sat_add(sat_sum(weights.drop_last()), weights.last())
    }
}

impl GraphView {
    /// Whether a weighted edge of weight `weight` leads from `a` to `b`.
    pub open spec fn weighted_step(self, a: int, b: int, weight: i64) -> bool {
        &&& 0 <= a < self.weighted_adj.len()
        &&& exists|i: int|
            0 <= i < self.weighted_adj[a].len() && #[trigger] self.weighted_adj[a][i] == (
                b as usize,
                weight,
            ) && 0 <= b <= usize::MAX
    }

    /// Whether `verts` goes from vertex to vertex along weighted edges of
    /// the weights `weights`.
    pub open spec fn is_weighted_walk(self, verts: Seq<int>, weights: Seq<i64>) -> bool {
        &&& verts.len() == weights.len() + 1
        &&& 0 <= verts[0] < self.weighted_adj.len()
        &&& forall|k: int|
            0 <= k < weights.len() ==> self.weighted_step(
                #[trigger] verts[k],
                verts[k + 1],
                weights[k],
            )
    }

    /// Whether weighted edges lead from `a` to `b` whose weights add up,
    /// from the left and saturating, to `dist`.
    pub open spec fn reaches_with(self, a: int, b: int, dist: i64) -> bool {
        exists|verts: Seq<int>, weights: Seq<i64>|
            #[trigger] self.is_weighted_walk(verts, weights) && verts[0] == a && verts.last() == b
                && sat_sum(weights) == dist
    }

    /// Whether every weighted edge that leaves `u` is relaxed under
    /// `dist`: its end is no farther than `u` and the edge together.
    pub open spec fn relaxed(self, dist: Seq<i64>, u: int) -> bool {
        forall|i: int|
            0 <= i < self.weighted_adj[u].len() ==> dist[(#[trigger] self.weighted_adj[u][i]).0 as int]
                <= sat_add(dist[u], self.weighted_adj[u][i].1)
    }

    /// Whether `dist` holds distances from `start` that cannot be improved:
    /// the start is at most zero away, every distance other than
    /// `i64::MAX` is the length of a walk from the start, and every edge
    /// that leaves a vertex with such a distance is relaxed.
    pub open spec fn settled(self, start: int, dist: Seq<i64>) -> bool {
        &&& dist.len() == self.n()
        &&& dist[start] <= 0
        &&& forall|v: int|
            0 <= v < self.n() && #[trigger] dist[v] != i64::MAX ==> self.reaches_with(
                start,
                v,
                dist[v],
            )
        &&& forall|u: int|
            0 <= u < self.n() && dist[u] != i64::MAX ==> #[trigger] self.relaxed(dist, u)
    }

    /// Whether `pred` names, for every vertex that has one, a vertex before
    /// it on a shortest way: an edge leads from there whose weight makes up
    /// the difference of the distances. Every vertex with a distance other
    /// than `i64::MAX`, but for the start, has one.
    pub open spec fn linked(self, start: int, dist: Seq<i64>, pred: Seq<Option<usize>>) -> bool {
        &&& pred.len() == self.n()
        &&& forall|v: int|
            0 <= v < self.n() && (#[trigger] pred[v]) is Some ==> self.via(dist, pred[v]->Some_0 as int, v)
        &&& forall|v: int|
            0 <= v < self.n() && v != start && dist[v] != i64::MAX ==> (#[trigger] pred[v]) is Some
    }

    /// Whether `u` has a distance and an edge to `v` whose weight, added to
    /// the distance of `u`, gives the distance of `v`.
    pub open spec fn via(self, dist: Seq<i64>, u: int, v: int) -> bool {
        &&& 0 <= u < self.n()
        &&& dist[u] != i64::MAX
        &&& exists|i: int|
            0 <= i < self.weighted_adj[u].len() && (#[trigger] self.weighted_adj[u][i]).0 == v
                && dist[v] == sat_add(dist[u], self.weighted_adj[u][i].1)
    }

    /// Whether no weighted edge has a negative weight.
    pub open spec fn non_negative(self) -> bool {
        forall|u: int, i: int|
            0 <= u < self.weighted_adj.len() && 0 <= i < self.weighted_adj[u].len() ==> (
            #[trigger] self.weighted_adj[u][i]).1 >= 0
    }
}

/// Adding to a smaller number gives no greater sum.
pub proof fn lemma_sat_add_monotone(a: i64, b: i64, w: i64)
    requires
        a <= b,
    ensures
        sat_add(a, w) <= sat_add(b, w),
{
}

/// A walk prolonged by an edge is a walk, longer by the weight of the edge.
pub proof fn lemma_reaches_extend(g: GraphView, a: int, b: int, c: int, dist: i64, weight: i64)
    requires
        g.reaches_with(a, b, dist),
        g.weighted_step(b, c, weight),
    ensures
        g.reaches_with(a, c, sat_add(dist, weight)),
{
    let (verts, weights) = choose|verts: Seq<int>, weights: Seq<i64>|
        #[trigger] g.is_weighted_walk(verts, weights) && verts[0] == a && verts.last() == b
            && sat_sum(weights) == dist;
    let verts2 = verts.push(c);
    let weights2 = weights.push(weight);
    assert(weights2.drop_last() =~= weights);
    assert forall|k: int| 0 <= k < weights2.len() implies g.weighted_step(
        #[trigger] verts2[k],
        verts2[k + 1],
        weights2[k],
    ) by {
        if k < weights.len() {
            assert(g.weighted_step(verts[k], verts[k + 1], weights[k]));
        }
    }
    assert(g.is_weighted_walk(verts2, weights2));
}

/// Where no weight is negative, settled distances are the shortest: no
/// walk from the start to a vertex is shorter than the distance of the
/// vertex.
#[verifier::rlimit(40)]
pub proof fn lemma_settled_is_shortest(
    g: GraphView,
    start: int,
    dist: Seq<i64>,
    verts: Seq<int>,
    weights: Seq<i64>,
)
    requires
        g.wf(),
        g.non_negative(),
        g.settled(start, dist),
        g.is_weighted_walk(verts, weights),
        verts[0] == start,
    ensures
        0 <= verts.last() < g.n(),
        dist[verts.last()] <= sat_sum(weights),
    decreases weights.len(),
{
    if weights.len() > 0 {
        let k = weights.len() - 1;
        let verts1 = verts.drop_last();
        let weights1 = weights.drop_last();
        assert forall|j: int| 0 <= j < weights1.len() implies g.weighted_step(
            #[trigger] verts1[j],
            verts1[j + 1],
            weights1[j],
        ) by {
            assert(g.weighted_step(verts[j], verts[j + 1], weights[j]));
        }
        lemma_settled_is_shortest(g, start, dist, verts1, weights1);
        let u = verts[k];
        let v = verts[k + 1];
        let w = weights[k];
        assert(verts1.last() == u);
        assert(g.weighted_step(u, v, w));
        let i = choose|i: int|
            0 <= i < g.weighted_adj[u].len() && #[trigger] g.weighted_adj[u][i] == (v as usize, w)
                && 0 <= v <= usize::MAX;
        assert(g.weighted_adj[u][i].0 < g.adj.len());
        assert(w >= 0);
        if dist[u] != i64::MAX {
            assert(g.relaxed(dist, u));
            assert(dist[v] <= sat_add(dist[u], w));
        }
    }
}

/// The distances of `dist` above the least `i64`, added up.
pub open spec fn slack(dist: Seq<i64>) -> int
    decreases dist.len(),
{
    if dist.len() == 0 {
        0
    } else {
        slack(dist.drop_last()) + (dist.last() - i64::MIN)
    }
}

/// Lowering one distance lowers the slack, which is never negative.
pub proof fn lemma_slack_lowered(dist: Seq<i64>, v: int, lower: i64)
    requires
        0 <= v < dist.len(),
        lower < dist[v],
    ensures
        0 <= slack(dist.update(v, lower)) < slack(dist),
    decreases dist.len(),
{
    let after = dist.update(v, lower);
    if v == dist.len() - 1 {
        assert(after.drop_last() =~= dist.drop_last());
        lemma_slack_bounds(dist.drop_last());
    } else {
        assert(after.drop_last() =~= dist.drop_last().update(v, lower));
        lemma_slack_lowered(dist.drop_last(), v, lower);
    }
}

/// The slack is never negative.
pub proof fn lemma_slack_bounds(dist: Seq<i64>)
    ensures
        slack(dist) >= 0,
    decreases dist.len(),
{
    if dist.len() > 0 {
        lemma_slack_bounds(dist.drop_last());
    }
}

/// `a + b`, held at the ends of the range of `i64`.
fn add_saturating(a: i64, b: i64) -> (sum: i64)
    ensures
        sum == sat_add(a, b),
{
    if b > 0 && a > i64::MAX - b {
        i64::MAX
    } else if b < 0 && a < i64::MIN - b {
        i64::MIN
    } else {
        a + b
    }
}

/// Whether every entry of `queue` names a vertex and a distance, not
/// `i64::MAX`, that is no less than the distance the vertex has by now.
pub open spec fn queue_ok(g: GraphView, dist: Seq<i64>, queue: Seq<(i64, usize)>) -> bool {
    forall|e: (i64, usize)| #[trigger]
        holds(queue, e) ==> e.1 < g.n() && dist[e.1 as int] <= e.0 && e.0 < i64::MAX
}

/// Whether every distance other than `i64::MAX` is the length of a walk
/// from `start`.
pub open spec fn witnessed(g: GraphView, start: int, dist: Seq<i64>) -> bool {
    forall|v: int|
        0 <= v < g.n() && #[trigger] dist[v] != i64::MAX ==> g.reaches_with(start, v, dist[v])
}

/// Whether `x` waits in the queue with the distance it has by now, or has
/// all its edges relaxed.
pub open spec fn pending_or_relaxed(
    g: GraphView,
    dist: Seq<i64>,
    queue: Seq<(i64, usize)>,
    x: int,
) -> bool {
    holds(queue, (dist[x], x as usize)) || g.relaxed(dist, x)
}

/// Whether `u` has a distance and an edge to `v` whose weight, added to the
/// distance of `u`, gives no more than the distance of `v`.
pub open spec fn behind(g: GraphView, dist: Seq<i64>, u: int, v: int) -> bool {
    &&& 0 <= u < g.n()
    &&& dist[u] != i64::MAX
    &&& exists|i: int|
        0 <= i < g.weighted_adj[u].len() && (#[trigger] g.weighted_adj[u][i]).0 == v && dist[v]
            >= sat_add(dist[u], g.weighted_adj[u][i].1)
}

/// What holds of the distances and predecessors whatever the queue holds.
pub open spec fn tables_ok(
    g: GraphView,
    start: int,
    dist: Seq<i64>,
    pred: Seq<Option<usize>>,
    queue: Seq<(i64, usize)>,
) -> bool {
    &&& g.wf()
    &&& g.n() <= usize::MAX
    &&& 0 <= start < g.n()
    &&& dist.len() == g.n()
    &&& pred.len() == g.n()
    &&& dist[start] <= 0
    &&& queue_ok(g, dist, queue)
    &&& witnessed(g, start, dist)
    &&& forall|v: int|
        0 <= v < g.n() && (#[trigger] pred[v]) is Some ==> behind(g, dist, pred[v]->Some_0 as int, v)
    &&& forall|v: int|
        0 <= v < g.n() && v != start && dist[v] != i64::MAX ==> (#[trigger] pred[v]) is Some
}

/// What holds between two vertices taken from the queue.
pub open spec fn between_pops(
    g: GraphView,
    start: int,
    dist: Seq<i64>,
    pred: Seq<Option<usize>>,
    queue: Seq<(i64, usize)>,
) -> bool {
    &&& tables_ok(g, start, dist, pred, queue)
    &&& forall|x: int|
        0 <= x < g.n() && dist[x] != i64::MAX ==> #[trigger] pending_or_relaxed(g, dist, queue, x)
}

/// What holds while the first `done` edges of `u` have been looked at.
pub open spec fn within_pop(
    g: GraphView,
    start: int,
    dist: Seq<i64>,
    pred: Seq<Option<usize>>,
    queue: Seq<(i64, usize)>,
    u: int,
    done: int,
) -> bool {
    &&& tables_ok(g, start, dist, pred, queue)
    &&& 0 <= u < g.n()
    &&& dist[u] != i64::MAX
    &&& 0 <= done <= g.weighted_adj[u].len()
    &&& forall|x: int|
        0 <= x < g.n() && x != u && dist[x] != i64::MAX ==> #[trigger] pending_or_relaxed(
            g,
            dist,
            queue,
            x,
        )
    &&& holds(queue, (dist[u], u as usize)) || forall|k: int|
        0 <= k < done ==> dist[(#[trigger] g.weighted_adj[u][k]).0 as int] <= sat_add(
            dist[u],
            g.weighted_adj[u][k].1,
        )
}

/// Before the first vertex is taken: only the start has a distance, and it
/// waits in the queue.
proof fn lemma_begin(
    g: GraphView,
    start: int,
    dist: Seq<i64>,
    pred: Seq<Option<usize>>,
    queue: Seq<(i64, usize)>,
)
    requires
        g.wf(),
        g.n() <= usize::MAX,
        0 <= start < g.n(),
        dist.len() == g.n(),
        pred.len() == g.n(),
        forall|v: int| 0 <= v < g.n() ==> #[trigger] dist[v] == if v == start {
            0
        } else {
            i64::MAX
        },
        forall|v: int| 0 <= v < g.n() ==> (#[trigger] pred[v]) is None,
        holds(queue, (0i64, start as usize)),
        forall|e: (i64, usize)| holds(queue, e) ==> e == (0i64, start as usize),
    ensures
        between_pops(g, start, dist, pred, queue),
{
    assert(g.is_weighted_walk(seq![start], Seq::<i64>::empty()));
    assert(sat_sum(Seq::<i64>::empty()) == 0);
    assert(g.reaches_with(start, start, 0));
    assert(holds(queue, (dist[start], start as usize)));
}

/// Taking an entry out of the queue that its vertex has outrun changes
/// nothing; taking one that is up to date leaves its vertex to be looked
/// at.
#[verifier::rlimit(40)]
proof fn lemma_popped(
    g: GraphView,
    start: int,
    dist: Seq<i64>,
    pred: Seq<Option<usize>>,
    before: Seq<(i64, usize)>,
    after: Seq<(i64, usize)>,
    least: (i64, usize),
)
    requires
        between_pops(g, start, dist, pred, before),
        holds(before, least),
        forall|e: (i64, usize)| holds(after, e) ==> holds(before, e),
        forall|e: (i64, usize)| holds(before, e) && e != least ==> holds(after, e),
    ensures
        least.1 < g.n(),
        dist[least.1 as int] != i64::MAX,
        least.0 > dist[least.1 as int] ==> between_pops(g, start, dist, pred, after),
        least.0 <= dist[least.1 as int] ==> within_pop(
            g,
            start,
            dist,
            pred,
            after,
            least.1 as int,
            0,
        ),
{
    assert(queue_ok(g, dist, after)) by {
        assert forall|e: (i64, usize)| #[trigger] holds(after, e) implies e.1 < g.n() && dist[e.1 as int]
            <= e.0 && e.0 < i64::MAX by {
            assert(holds(before, e));
        }
    }
    assert forall|x: int|
        0 <= x < g.n() && dist[x] != i64::MAX && (x != least.1 || least.0
            > dist[least.1 as int]) implies #[trigger] pending_or_relaxed(g, dist, after, x) by {
        assert(pending_or_relaxed(g, dist, before, x));
        if holds(before, (dist[x], x as usize)) {
            assert((dist[x], x as usize) != least);
        }
    }
}

/// Looking at an edge that offers no shorter way changes nothing.
proof fn lemma_edge_kept(
    g: GraphView,
    start: int,
    dist: Seq<i64>,
    pred: Seq<Option<usize>>,
    queue: Seq<(i64, usize)>,
    u: int,
    done: int,
)
    requires
        within_pop(g, start, dist, pred, queue, u, done),
        done < g.weighted_adj[u].len(),
        sat_add(dist[u], g.weighted_adj[u][done].1) >= dist[g.weighted_adj[u][done].0 as int],
    ensures
        within_pop(g, start, dist, pred, queue, u, done + 1),
{
    if !holds(queue, (dist[u], u as usize)) {
        assert forall|k: int| 0 <= k < done + 1 implies dist[(#[trigger] g.weighted_adj[u][k]).0 as int]
            <= sat_add(dist[u], g.weighted_adj[u][k].1) by {}
    }
}

/// Looking at an edge that offers a shorter way: its end takes the new
/// distance and `u` as predecessor, and waits in the queue with it.
#[verifier::rlimit(40)]
proof fn lemma_edge_taken(
    g: GraphView,
    start: int,
    dist: Seq<i64>,
    pred: Seq<Option<usize>>,
    queue: Seq<(i64, usize)>,
    queue2: Seq<(i64, usize)>,
    u: int,
    done: int,
)
    requires
        within_pop(g, start, dist, pred, queue, u, done),
        done < g.weighted_adj[u].len(),
        sat_add(dist[u], g.weighted_adj[u][done].1) < dist[g.weighted_adj[u][done].0 as int],
        holds(queue2, (sat_add(dist[u], g.weighted_adj[u][done].1), g.weighted_adj[u][done].0)),
        forall|e: (i64, usize)| holds(queue, e) ==> holds(queue2, e),
        forall|e: (i64, usize)|
            holds(queue2, e) ==> holds(queue, e) || e == (
                sat_add(dist[u], g.weighted_adj[u][done].1),
                g.weighted_adj[u][done].0,
            ),
    ensures
        g.weighted_adj[u][done].0 < g.n(),
        within_pop(
            g,
            start,
            dist.update(
                g.weighted_adj[u][done].0 as int,
                sat_add(dist[u], g.weighted_adj[u][done].1),
            ),
            pred.update(g.weighted_adj[u][done].0 as int, Some(u as usize)),
            queue2,
            u,
            done + 1,
        ),
        0 <= slack(
            dist.update(
                g.weighted_adj[u][done].0 as int,
                sat_add(dist[u], g.weighted_adj[u][done].1),
            ),
        ) < slack(dist),
{
    let edge = g.weighted_adj[u][done];
    let v = edge.0 as int;
    let w = edge.1;
    let shorter = sat_add(dist[u], w);
    let dist2 = dist.update(v, shorter);
    let pred2 = pred.update(v, Some(u as usize));
    assert(edge.0 < g.adj.len());
    lemma_slack_lowered(dist, v, shorter);
    assert(holds(queue2, (shorter, v as usize)));
    assert(queue_ok(g, dist2, queue2)) by {
        assert forall|e: (i64, usize)| #[trigger] holds(queue2, e) implies e.1 < g.n() && dist2[e.1 as int]
            <= e.0 && e.0 < i64::MAX by {
            if e != (shorter, v as usize) {
                assert(holds(queue, e));
            }
        }
    }
    assert(witnessed(g, start, dist2)) by {
        assert forall|x: int| 0 <= x < g.n() && #[trigger] dist2[x] != i64::MAX implies g.reaches_with(
            start,
            x,
            dist2[x],
        ) by {
            if x == v {
                assert(g.reaches_with(start, u, dist[u]));
                assert(g.weighted_step(u, v, w));
                lemma_reaches_extend(g, start, u, v, dist[u], w);
            } else {
                assert(dist[x] != i64::MAX);
            }
        }
    }
    assert forall|y: int| 0 <= y < g.n() && (#[trigger] pred2[y]) is Some implies behind(
        g,
        dist2,
        pred2[y]->Some_0 as int,
        y,
    ) by {
        if y == v {
            lemma_sat_add_monotone(dist2[u], dist[u], w);
            assert(g.weighted_adj[u][done].0 == v);
        } else {
            let x = pred[y]->Some_0 as int;
            assert(behind(g, dist, x, y));
            let i = choose|i: int|
                0 <= i < g.weighted_adj[x].len() && (#[trigger] g.weighted_adj[x][i]).0 == y
                    && dist[y] >= sat_add(dist[x], g.weighted_adj[x][i].1);
            lemma_sat_add_monotone(dist2[x], dist[x], g.weighted_adj[x][i].1);
            assert(g.weighted_adj[x][i].0 == y);
        }
    }
    assert forall|x: int| 0 <= x < g.n() && x != u && dist2[x] != i64::MAX implies #[trigger] pending_or_relaxed(
        g,
        dist2,
        queue2,
        x,
    ) by {
        if x != v {
            assert(pending_or_relaxed(g, dist, queue, x));
            if !holds(queue, (dist[x], x as usize)) {
                assert(g.relaxed(dist, x));
                assert forall|i: int| 0 <= i < g.weighted_adj[x].len() implies dist2[(
                #[trigger] g.weighted_adj[x][i]).0 as int] <= sat_add(
                    dist2[x],
                    g.weighted_adj[x][i].1,
                ) by {}
            }
        }
    }
    if v != u && !holds(queue, (dist[u], u as usize)) {
        assert forall|k: int| 0 <= k < done + 1 implies dist2[(#[trigger] g.weighted_adj[u][k]).0 as int]
            <= sat_add(dist2[u], g.weighted_adj[u][k].1) by {}
    }
}

/// Once all edges of a vertex have been looked at, the vertex is relaxed
/// or waits in the queue again.
proof fn lemma_pop_done(
    g: GraphView,
    start: int,
    dist: Seq<i64>,
    pred: Seq<Option<usize>>,
    queue: Seq<(i64, usize)>,
    u: int,
)
    requires
        within_pop(g, start, dist, pred, queue, u, g.weighted_adj[u].len() as int),
    ensures
        between_pops(g, start, dist, pred, queue),
{
    assert(pending_or_relaxed(g, dist, queue, u));
}

/// With nothing left in the queue the distances are settled and the
/// predecessors linked.
proof fn lemma_finished(
    g: GraphView,
    start: int,
    dist: Seq<i64>,
    pred: Seq<Option<usize>>,
    queue: Seq<(i64, usize)>,
)
    requires
        between_pops(g, start, dist, pred, queue),
        queue.len() == 0,
    ensures
        g.settled(start, dist),
        g.linked(start, dist, pred),
{
    assert forall|u: int| 0 <= u < g.n() && dist[u] != i64::MAX implies #[trigger] g.relaxed(
        dist,
        u,
    ) by {
        assert(pending_or_relaxed(g, dist, queue, u));
    }
    assert forall|v: int| 0 <= v < g.n() && (#[trigger] pred[v]) is Some implies g.via(
        dist,
        pred[v]->Some_0 as int,
        v,
    ) by {
        let u = pred[v]->Some_0 as int;
        assert(behind(g, dist, u, v));
        let i = choose|i: int|
            0 <= i < g.weighted_adj[u].len() && (#[trigger] g.weighted_adj[u][i]).0 == v && dist[v]
                >= sat_add(dist[u], g.weighted_adj[u][i].1);
        assert(g.relaxed(dist, u));
        assert(dist[g.weighted_adj[u][i].0 as int] <= sat_add(dist[u], g.weighted_adj[u][i].1));
    }
}

impl Graph {
    /// Relaxes the weighted edges, nearest vertex first, until no distance
    /// from `start` can be improved.
    #[verifier::rlimit(40)]
    fn relax_all(&self, start: usize) -> (tables: (Vec<i64>, Vec<Option<usize>>))
        requires
            self.wf(),
            start < self@.n(),
        ensures
            self@.settled(start as int, tables.0@),
            self@.linked(start as int, tables.0@, tables.1@),
    {
        let ghost g = self@;
        let n = self.n;
        let mut distances: Vec<i64> = vec![i64::MAX; n];
        let mut predecessors: Vec<Option<usize>> = Vec::new();
        let mut k: usize = 0;
        while k < n
            invariant
                k <= n,
                predecessors@.len() == k,
                forall|v: int| 0 <= v < k ==> (#[trigger] predecessors@[v]) is None,
            decreases n - k,
        {
            predecessors.push(None);
            k += 1;
        }
        let mut heap = MinQueue::new();
        distances.set(start, 0);
        heap.push((0, start));
        proof {
            lemma_begin(g, start as int, distances@, predecessors@, heap@);
        }
        while heap.len() > 0
            invariant
                self.wf(),
                heap.wf(),
                g == self@,
                n == g.n(),
                between_pops(g, start as int, distances@, predecessors@, heap@),
            decreases slack(distances@), heap@.len(),
        {
            let ghost queued = heap@;
            let ghost slack_before = slack(distances@);
            let least = heap.pop();
            let dist = least.0;
            let u = least.1;
            proof {
                lemma_popped(g, start as int, distances@, predecessors@, queued, heap@, least);
            }
            if dist <= distances[u] {
                proof {
                    lemma_slack_bounds(distances@);
                }
                let mut i: usize = 0;
                while i < self.weighted_adj[u].len()
                    invariant
                        self.wf(),
                        heap.wf(),
                        g == self@,
                        n == g.n(),
                        u < n,
                        i <= g.weighted_adj[u as int].len(),
                        within_pop(
                            g,
                            start as int,
                            distances@,
                            predecessors@,
                            heap@,
                            u as int,
                            i as int,
                        ),
                        0 <= slack(distances@) <= slack_before,
                        slack(distances@) == slack_before ==> heap@.len() == queued.len() - 1,
                    decreases g.weighted_adj[u as int].len() - i,
                {
                    let edge = self.weighted_adj[u][i];
                    let v = edge.0;
                    let weight = edge.1;
                    proof {
                        assert(g.weighted_adj[u as int][i as int] == edge);
                        assert(edge.0 < g.adj.len());
                    }
                    let new_dist = add_saturating(distances[u], weight);
                    if new_dist < distances[v] {
                        let ghost dist_before = distances@;
                        let ghost pred_before = predecessors@;
                        let ghost queue_before = heap@;
                        distances.set(v, new_dist);
                        predecessors.set(v, Some(u));
                        heap.push((new_dist, v));
                        proof {
                            lemma_edge_taken(
                                g,
                                start as int,
                                dist_before,
                                pred_before,
                                queue_before,
                                heap@,
                                u as int,
                                i as int,
                            );
                        }
                    } else {
                        proof {
                            lemma_edge_kept(
                                g,
                                start as int,
                                distances@,
                                predecessors@,
                                heap@,
                                u as int,
                                i as int,
                            );
                        }
                    }
                    i += 1;
                }
                proof {
                    lemma_pop_done(g, start as int, distances@, predecessors@, heap@, u as int);
                }
            }
        }
        proof {
            lemma_finished(g, start as int, distances@, predecessors@, heap@);
        }
        (distances, predecessors)
    }

    /// The distance of every vertex from `start` along the weighted edges,
    /// `i64::MAX` for a vertex that no walk reaches with less. Edges are
    /// relaxed until no distance can be improved; where no weight is
    /// negative the distances are the lengths of the shortest walks.
    pub fn dijkstra(&self, start: usize) -> (distances: Vec<i64>)
        requires
            self.wf(),
            start < self@.n(),
        ensures
            self@.settled(start as int, distances@),
    {
        let tables = self.relax_all(start);
        tables.0
    }

    /// The distances that `dijkstra` gives, and with them for every vertex
    /// the vertex before it on a way of that length.
    pub fn dijkstra_with_path(&self, start: usize) -> (tables: (Vec<i64>, Vec<Option<usize>>))
        requires
            self.wf(),
            start < self@.n(),
        ensures
            self@.settled(start as int, tables.0@),
            self@.linked(start as int, tables.0@, tables.1@),
    {
        self.relax_all(start)
    }

    /// The distance of `target` from `start`, `None` where `dijkstra`
    /// gives `i64::MAX`.
    pub fn shortest_distance(&self, start: usize, target: usize) -> (distance: Option<i64>)
        requires
            self.wf(),
            start < self@.n(),
            target < self@.n(),
        ensures
            exists|dist: Seq<i64>| #[trigger]
                self@.settled(start as int, dist) && distance == if dist[target as int]
                    == i64::MAX {
                    None
                } else {
                    Some(dist[target as int])
                },
    {
        let distances = self.dijkstra(start);
        if distances[target] == i64::MAX {
            None
        } else {
            Some(distances[target])
        }
    }
}

/// The vertex reached from `v` by going to the predecessor `k` times;
/// `None` once a vertex without predecessor has been passed.
pub open spec fn back(pred: Seq<Option<usize>>, v: int, k: nat) -> Option<int>
    decreases k,
{
    if k == 0 {
        Some(v)
    } else {
        match back(pred, v, (k - 1) as nat) {
            Some(x) => if 0 <= x < pred.len() && pred[x] is Some {
                Some(pred[x]->Some_0 as int)
            } else {
                None
            },
            None => None,
        }
    }
}

/// Whether `path` lists the vertices from `start` to `target` that going
/// back from `target` passes, `start` met for the first time after `k`
/// steps.
pub open spec fn traces_back(
    pred: Seq<Option<usize>>,
    start: int,
    target: int,
    k: int,
    path: Seq<usize>,
) -> bool {
    &&& 0 <= k
    &&& path.len() == k + 1
    &&& forall|i: int| 0 <= i <= k ==> Some(#[trigger] path[i] as int) == back(
        pred,
        target,
        (k - i) as nat,
    )
    &&& forall|j: int| 0 <= j < k ==> #[trigger] back(pred, target, j as nat) != Some(start)
    &&& back(pred, target, k as nat) == Some(start)
}

/// Whether `found` is the way from `start` to `target` that the
/// predecessors give: the vertices passed going back from `target` until
/// `start` is met, in the order from `start`; none where `start` is not
/// met within as many steps as there are predecessors.
pub open spec fn traced(
    pred: Seq<Option<usize>>,
    start: int,
    target: int,
    found: Option<Vec<usize>>,
) -> bool {
    match found {
        Some(path) => exists|k: int| 0 <= k < pred.len() && #[trigger] traces_back(pred, start, target, k, path@),
        None => forall|k: int| 0 <= k < pred.len() ==> #[trigger] back(pred, target, k as nat) != Some(start),
    }
}

/// Once going back has passed a vertex without predecessor it meets no
/// vertex any more.
pub proof fn lemma_back_ends(pred: Seq<Option<usize>>, v: int, j: nat, k: nat)
    requires
        j <= k,
        back(pred, v, j) is None,
    ensures
        back(pred, v, k) is None,
    decreases k,
{
    if j < k {
        lemma_back_ends(pred, v, j, (k - 1) as nat);
    }
}

impl Graph {
    /// The way from `start` to `target` that `predecessors` gives, found by
    /// going back from `target`. None where going back ends before it
    /// meets `start`, or has not met it after as many steps as there are
    /// vertices.
    #[verifier::rlimit(40)]
    pub fn reconstruct_path(
        &self,
        start: usize,
        target: usize,
        predecessors: &[Option<usize>],
    ) -> (found: Option<Vec<usize>>)
        requires
            self.wf(),
            start < self@.n(),
            target < self@.n(),
            predecessors@.len() == self@.n(),
            forall|v: int|
                0 <= v < predecessors@.len() && (#[trigger] predecessors@[v]) is Some
                    ==> predecessors@[v]->Some_0 < predecessors@.len(),
        ensures
            traced(predecessors@, start as int, target as int, found),
    {
        let ghost pred = predecessors@;
        let n = predecessors.len();
        let mut path: Vec<usize> = Vec::new();
        let mut current: usize = target;
        while current != start
            invariant
                pred == predecessors@,
                n == pred.len(),
                current < n,
                path@.len() < n,
                Some(current as int) == back(pred, target as int, path@.len()),
                forall|i: int|
                    0 <= i < path@.len() ==> Some(#[trigger] path@[i] as int) == back(
                        pred,
                        target as int,
                        i as nat,
                    ),
                forall|j: int|
                    0 <= j < path@.len() ==> #[trigger] back(pred, target as int, j as nat) != Some(
                        start as int,
                    ),
                forall|v: int|
                    0 <= v < pred.len() && (#[trigger] pred[v]) is Some ==> pred[v]->Some_0
                        < pred.len(),
            decreases n - path@.len(),
        {
            if path.len() + 1 >= n {
                return None;
            }
            let ghost steps = path@.len();
            path.push(current);
            match predecessors[current] {
                Some(before) => {
                    proof {
                        assert(back(pred, target as int, (steps + 1) as nat) == Some(before as int));
                    }
                    current = before;
                },
                None => {
                    proof {
                        assert(back(pred, target as int, (steps + 1) as nat) is None);
                        assert forall|k: int| 0 <= k < pred.len() implies #[trigger] back(
                            pred,
                            target as int,
                            k as nat,
                        ) != Some(start as int) by {
                            if k > steps {
                                lemma_back_ends(pred, target as int, (steps + 1) as nat, k as nat);
                            }
                        }
                    }
                    return None;
                },
            }
        }
        let ghost steps = path@.len() as int;
        path.push(start);
        let ghost backwards = path@;
        let total = path.len();
        reverse_range(&mut path, 0, total);
        proof {
            assert(path@ == reversed_range(backwards, 0, total as int));
            assert forall|i: int| 0 <= i <= steps implies Some(#[trigger] path@[i] as int) == back(
                pred,
                target as int,
                (steps - i) as nat,
            ) by {
                assert(path@[i] == backwards[steps - i]);
            }
            assert(traces_back(pred, start as int, target as int, steps, path@));
            assert(0 <= steps < pred.len());
        }
        let found = Some(path);
        proof {
            assert(found->Some_0@ == path@);
            assert(traces_back(pred, start as int, target as int, steps, found->Some_0@));
        }
        found
    }

    /// A shortest way from `start` to `target` along the weighted edges:
    /// the one that the predecessors of `dijkstra_with_path` give.
    pub fn shortest_path(&self, start: usize, target: usize) -> (found: Option<Vec<usize>>)
        requires
            self.wf(),
            start < self@.n(),
            target < self@.n(),
        ensures
            exists|dist: Seq<i64>, pred: Seq<Option<usize>>| #[trigger]
                self@.linked(start as int, dist, pred) && self@.settled(start as int, dist)
                    && traced(pred, start as int, target as int, found),
    {
        let tables = self.dijkstra_with_path(start);
        let predecessors = tables.1;
        proof {
            let g = self@;
            assert forall|v: int|
                0 <= v < predecessors@.len() && (#[trigger] predecessors@[v]) is Some implies predecessors@[v]->Some_0
                < predecessors@.len() by {
                assert(g.via(tables.0@, predecessors@[v]->Some_0 as int, v));
            }
        }
        let found = self.reconstruct_path(start, target, predecessors.as_slice());
        proof {
            assert(self@.linked(start as int, tables.0@, predecessors@));
        }
        found
    }
}

} // verus!
