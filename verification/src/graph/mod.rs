//! Adjacency-list graphs with traversals and shortest paths.

pub mod breadth_first;
pub mod queue;
pub mod shortest;

use vstd::prelude::*;

verus! {

/// What a graph holds: for every vertex its unweighted and its weighted
/// neighbours, in the order in which the edges were added.
pub struct GraphView {
    pub adj: Seq<Seq<usize>>,
    pub weighted_adj: Seq<Seq<(usize, i64)>>,
    pub directed: bool,
}

impl GraphView {
    /// The number of vertices.
    pub open spec fn n(self) -> nat {
        self.adj.len()
    }

    /// Both lists cover every vertex and name vertices only.
    pub open spec fn wf(self) -> bool {
        &&& self.weighted_adj.len() == self.adj.len()
        &&& forall|u: int, i: int|
            0 <= u < self.adj.len() && 0 <= i < self.adj[u].len() ==> (#[trigger] self.adj[u][i])
                < self.adj.len()
        &&& forall|u: int, i: int|
            0 <= u < self.adj.len() && 0 <= i < self.weighted_adj[u].len() ==> (
            #[trigger] self.weighted_adj[u][i]).0 < self.adj.len()
    }

    /// `n` vertices and no edge.
    pub open spec fn empty(n: nat, directed: bool) -> GraphView {
        GraphView {
            adj: Seq::new(n, |u: int| Seq::empty()),
            weighted_adj: Seq::new(n, |u: int| Seq::empty()),
            directed,
        }
    }

    /// The graph with an unweighted edge from `u` to `v` added, and the
    /// edge back where the graph is undirected and the edge is no loop.
    pub open spec fn with_edge(self, u: int, v: int) -> GraphView {
        let forward = self.adj.update(u, self.adj[u].push(v as usize));
        GraphView {
            adj: if !self.directed && u != v {
                forward.update(v, forward[v].push(u as usize))
            } else {
                forward
            },
            ..self
        }
    }

    /// The graph with a weighted edge from `u` to `v` added, and the edge
    /// back where the graph is undirected and the edge is no loop.
    pub open spec fn with_weighted_edge(self, u: int, v: int, weight: i64) -> GraphView {
        let forward = self.weighted_adj.update(u, self.weighted_adj[u].push((v as usize, weight)));
        GraphView {
            weighted_adj: if !self.directed && u != v {
                forward.update(v, forward[v].push((u as usize, weight)))
            } else {
                forward
            },
            ..self
        }
    }

    /// Whether an edge, weighted or not, leads from `a` to `b`.
    pub open spec fn step(self, a: int, b: int) -> bool {
        &&& 0 <= a < self.adj.len()
        &&& a < self.weighted_adj.len()
        &&& (exists|i: int| 0 <= i < self.adj[a].len() && #[trigger] self.adj[a][i] == b) || (
        exists|i: int|
            0 <= i < self.weighted_adj[a].len() && (#[trigger] self.weighted_adj[a][i]).0 == b)
    }

    /// Whether `walk` goes from vertex to vertex along edges.
    pub open spec fn is_walk(self, walk: Seq<int>) -> bool {
        &&& walk.len() >= 1
        &&& 0 <= walk[0] < self.adj.len()
        &&& forall|k: int| 0 <= k < walk.len() - 1 ==> self.step(#[trigger] walk[k], walk[k + 1])
    }

    /// Whether `walk` goes along edges from `a` to `b`.
    pub open spec fn walks(self, walk: Seq<int>, a: int, b: int) -> bool {
        self.is_walk(walk) && walk[0] == a && walk.last() == b
    }

    /// Whether edges lead from `a` to `b`; every vertex reaches itself.
    pub open spec fn reachable(self, a: int, b: int) -> bool {
        exists|walk: Seq<int>| self.walks(walk, a, b)
    }
}

/// A vertex reaches itself, and what it reaches reaches on along an edge.
pub proof fn lemma_reach_extend(g: GraphView, a: int, b: int, c: int)
    requires
        g.reachable(a, b),
        g.step(b, c),
    ensures
        g.reachable(a, c),
        0 <= a < g.n(),
{
    let walk = choose|walk: Seq<int>| g.walks(walk, a, b);
    let longer = walk.push(c);
    assert forall|k: int| 0 <= k < longer.len() - 1 implies g.step(
        #[trigger] longer[k],
        longer[k + 1],
    ) by {
        if k < walk.len() - 1 {
            assert(g.step(walk[k], walk[k + 1]));
        }
    }
    assert(g.walks(longer, a, c));
}

/// Every vertex reaches itself.
pub proof fn lemma_reach_self(g: GraphView, a: int)
    requires
        0 <= a < g.n(),
    ensures
        g.reachable(a, a),
{
    assert(g.walks(seq![a], a, a));
}

/// A set of vertices that holds `a` and with every vertex the ends of its
/// edges holds all that `a` reaches.
pub proof fn lemma_closed_holds_reachable(g: GraphView, marked: Seq<bool>, a: int, b: int)
    requires
        g.wf(),
        marked.len() == g.n(),
        0 <= a < g.n(),
        marked[a],
        forall|x: int, y: int|
            0 <= x < g.n() && marked[x] && #[trigger] g.step(x, y) ==> 0 <= y < g.n() && marked[y],
        g.reachable(a, b),
    ensures
        0 <= b < g.n(),
        marked[b],
{
    let walk = choose|walk: Seq<int>| g.walks(walk, a, b);
    lemma_walk_stays(g, marked, walk, walk.len() - 1);
}

/// A walk that starts in a closed set of vertices stays in it.
proof fn lemma_walk_stays(g: GraphView, marked: Seq<bool>, walk: Seq<int>, k: int)
    requires
        g.wf(),
        marked.len() == g.n(),
        g.is_walk(walk),
        marked[walk[0]],
        forall|x: int, y: int|
            0 <= x < g.n() && marked[x] && #[trigger] g.step(x, y) ==> 0 <= y < g.n() && marked[y],
        0 <= k < walk.len(),
    ensures
        0 <= walk[k] < g.n(),
        marked[walk[k]],
    decreases k,
{
    if k > 0 {
        lemma_walk_stays(g, marked, walk, k - 1);
        assert(g.step(walk[k - 1], walk[k - 1 + 1]));
    }
}

/// The number of entries of `marked` that are not set.
pub open spec fn unmarked(marked: Seq<bool>) -> nat
    decreases marked.len(),
{
    if marked.len() == 0 {
        0
    } else {
        unmarked(marked.drop_last()) + if marked.last() {
            0nat
        } else {
            1nat
        }
    }
}

/// Setting marks leaves no more entries unset, and one less where the
/// entry at `u` was not set and now is.
pub proof fn lemma_unmarked_shrinks(before: Seq<bool>, after: Seq<bool>, u: int)
    requires
        before.len() == after.len(),
        forall|i: int| 0 <= i < before.len() && before[i] ==> after[i],
    ensures
        unmarked(after) <= unmarked(before),
        0 <= u < before.len() && !before[u] && after[u] ==> unmarked(after) < unmarked(before),
    decreases before.len(),
{
    if before.len() > 0 {
        lemma_unmarked_shrinks(before.drop_last(), after.drop_last(), u);
    }
}

/// Whether the label of vertex `r` is greater than the label of every
/// vertex before it: `r` is the first vertex of its component.
pub open spec fn is_leader(comp: Seq<usize>, r: int) -> bool {
    forall|w: int| 0 <= w < r ==> #[trigger] comp[w] < comp[r]
}

/// The number of leaders among the vertices before `k`.
pub open spec fn leaders_below(comp: Seq<usize>, k: int) -> nat
    decreases k,
{
    if k <= 0 {
        0
    } else {
        leaders_below(comp, k - 1) + if is_leader(comp, k - 1) {
            1nat
        } else {
            0nat
        }
    }
}

/// Whether `comp` labels the components of `g` as a scan over the vertices
/// finds them: labels never grow along an edge, every vertex carries the
/// label of a leader before it that reaches it, and the leaders are
/// numbered from zero in the order of the vertices.
#[verifier::opaque]
pub open spec fn labels_components(g: GraphView, comp: Seq<usize>) -> bool {
    &&& comp.len() == g.n()
    &&& forall|a: int, b: int|
        0 <= a < g.n() && 0 <= b < g.n() && #[trigger] g.step(a, b) ==> comp[b] <= comp[a]
    &&& forall|v: int| 0 <= v < g.n() ==> #[trigger] led(g, comp, v)
    &&& forall|r: int|
        0 <= r < g.n() && is_leader(comp, r) ==> #[trigger] comp[r] == leaders_below(comp, r)
}

/// Whether some leader at or before `v` carries the label of `v` and
/// reaches `v`.
pub open spec fn led(g: GraphView, comp: Seq<usize>, v: int) -> bool {
    exists|r: int|
        0 <= r <= v && #[trigger] comp[r] == comp[v] && is_leader(comp, r) && g.reachable(r, v)
}

/// The number of leaders before `k` depends only on the labels before `k`.
pub proof fn lemma_leaders_agree(a: Seq<usize>, b: Seq<usize>, k: int)
    requires
        0 <= k <= a.len(),
        k <= b.len(),
        forall|i: int| 0 <= i < k ==> a[i] == b[i],
    ensures
        leaders_below(a, k) == leaders_below(b, k),
        forall|r: int| 0 <= r < k ==> is_leader(a, r) == is_leader(b, r),
    decreases k,
{
    if k > 0 {
        lemma_leaders_agree(a, b, k - 1);
        assert(is_leader(a, k - 1) == is_leader(b, k - 1)) by {
            if is_leader(a, k - 1) {
                assert forall|w: int| 0 <= w < k - 1 implies #[trigger] b[w] < b[k - 1] by {
                    assert(a[w] < a[k - 1]);
                }
            }
            if is_leader(b, k - 1) {
                assert forall|w: int| 0 <= w < k - 1 implies #[trigger] a[w] < a[k - 1] by {
                    assert(b[w] < b[k - 1]);
                }
            }
        }
    }
}

impl GraphView {
    /// Whether every edge has an edge back.
    pub open spec fn symmetric(self) -> bool {
        forall|a: int, b: int| #[trigger] self.step(a, b) ==> self.step(b, a)
    }
}

/// Two walks, the second from where the first ends, make one walk.
pub proof fn lemma_reach_joined(g: GraphView, a: int, b: int, c: int)
    requires
        g.reachable(a, b),
        g.reachable(b, c),
    ensures
        g.reachable(a, c),
{
    let second = choose|walk: Seq<int>| g.walks(walk, b, c);
    lemma_reach_along(g, a, second, second.len() - 1);
}

/// What reaches the start of a walk reaches every vertex on it.
proof fn lemma_reach_along(g: GraphView, a: int, walk: Seq<int>, k: int)
    requires
        g.is_walk(walk),
        g.reachable(a, walk[0]),
        0 <= k < walk.len(),
    ensures
        g.reachable(a, walk[k]),
    decreases k,
{
    if k > 0 {
        lemma_reach_along(g, a, walk, k - 1);
        assert(g.step(walk[k - 1], walk[k - 1 + 1]));
        lemma_reach_extend(g, a, walk[k - 1], walk[k]);
    }
}

/// Where every edge has an edge back, what a vertex reaches reaches the
/// vertex.
pub proof fn lemma_reach_back(g: GraphView, a: int, b: int)
    requires
        g.wf(),
        g.symmetric(),
        g.reachable(a, b),
    ensures
        g.reachable(b, a),
{
    let walk = choose|walk: Seq<int>| g.walks(walk, a, b);
    lemma_reach_back_along(g, walk, walk.len() - 1);
}

/// Where every edge has an edge back, every vertex on a walk reaches its
/// start.
proof fn lemma_reach_back_along(g: GraphView, walk: Seq<int>, k: int)
    requires
        g.wf(),
        g.symmetric(),
        g.is_walk(walk),
        0 <= k < walk.len(),
    ensures
        g.reachable(walk[k], walk[0]),
    decreases k,
{
    if k == 0 {
        lemma_reach_self(g, walk[0]);
    } else {
        lemma_reach_back_along(g, walk, k - 1);
        assert(g.step(walk[k - 1], walk[k - 1 + 1]));
        assert(g.step(walk[k], walk[k - 1]));
        assert(g.walks(seq![walk[k], walk[k - 1]], walk[k], walk[k - 1])) by {
            let two = seq![walk[k], walk[k - 1]];
            assert forall|j: int| 0 <= j < two.len() - 1 implies g.step(
                #[trigger] two[j],
                two[j + 1],
            ) by {}
        }
        lemma_reach_joined(g, walk[k], walk[k - 1], walk[0]);
    }
}

/// An edge ends at a vertex.
pub proof fn lemma_step_ends(g: GraphView, x: int, y: int)
    requires
        g.wf(),
        g.step(x, y),
    ensures
        0 <= x < g.n(),
        0 <= y < g.n(),
{
    if exists|i: int| 0 <= i < g.adj[x].len() && #[trigger] g.adj[x][i] == y {
        let i = choose|i: int| 0 <= i < g.adj[x].len() && #[trigger] g.adj[x][i] == y;
        assert(g.adj[x][i] < g.adj.len());
    } else {
        let i = choose|i: int|
            0 <= i < g.weighted_adj[x].len() && (#[trigger] g.weighted_adj[x][i]).0 == y;
        assert(g.weighted_adj[x][i].0 < g.adj.len());
    }
}

/// The label at the end of an edge is no greater than the label at its
/// start.
pub proof fn lemma_label_step(g: GraphView, comp: Seq<usize>, x: int, y: int)
    requires
        g.wf(),
        labels_components(g, comp),
        g.step(x, y),
    ensures
        0 <= x < g.n(),
        0 <= y < g.n(),
        comp[y] <= comp[x],
{
    reveal(labels_components);
    lemma_step_ends(g, x, y);
}

/// The leader of the component of `v`: the first vertex with the label of
/// `v`.
pub open spec fn leader_of(g: GraphView, comp: Seq<usize>, v: int) -> int {
    choose|r: int|
        0 <= r <= v && #[trigger] comp[r] == comp[v] && is_leader(comp, r) && g.reachable(r, v)
}

/// Every vertex has a leader, at or before it, that carries its label and
/// reaches it; vertices with one label have one leader.
pub proof fn lemma_leader(g: GraphView, comp: Seq<usize>, v: int, w: int)
    requires
        labels_components(g, comp),
        0 <= v < g.n(),
        0 <= w < g.n(),
    ensures
        0 <= leader_of(g, comp, v) <= v,
        comp[leader_of(g, comp, v)] == comp[v],
        g.reachable(leader_of(g, comp, v), v),
        comp[v] == comp[w] ==> leader_of(g, comp, v) == leader_of(g, comp, w),
{
    reveal(labels_components);
    assert(led(g, comp, v));
    assert(led(g, comp, w));
    let r = leader_of(g, comp, v);
    let q = leader_of(g, comp, w);
    if comp[v] == comp[w] {
        if r < q {
            assert(comp[r] < comp[q]);
        }
        if q < r {
            assert(comp[q] < comp[r]);
        }
    }
}

/// Labels never grow along a walk.
pub proof fn lemma_labels_along(g: GraphView, comp: Seq<usize>, walk: Seq<int>, k: int)
    requires
        g.wf(),
        labels_components(g, comp),
        g.is_walk(walk),
        0 <= k < walk.len(),
    ensures
        0 <= walk[k] < g.n(),
        comp[walk[k]] <= comp[walk[0]],
    decreases k,
{
    if k > 0 {
        lemma_labels_along(g, comp, walk, k - 1);
        assert(g.step(walk[k - 1], walk[k - 1 + 1]));
        lemma_label_step(g, comp, walk[k - 1], walk[k]);
    }
}

/// Where every edge has an edge back, as in an undirected graph, two
/// vertices carry one label exactly where edges lead from one to the
/// other.
#[verifier::rlimit(40)]
pub proof fn lemma_components_of_undirected(g: GraphView, comp: Seq<usize>, v: int, w: int)
    requires
        g.wf(),
        g.symmetric(),
        labels_components(g, comp),
        0 <= v < g.n(),
        0 <= w < g.n(),
    ensures
        comp[v] == comp[w] <==> g.reachable(v, w),
{
    if g.reachable(v, w) {
        let walk = choose|walk: Seq<int>| g.walks(walk, v, w);
        lemma_labels_along(g, comp, walk, walk.len() - 1);
        lemma_reach_back(g, v, w);
        let back = choose|walk: Seq<int>| g.walks(walk, w, v);
        lemma_labels_along(g, comp, back, back.len() - 1);
    }
    if comp[v] == comp[w] {
        lemma_leader(g, comp, v, w);
        lemma_leader(g, comp, w, v);
        let r = leader_of(g, comp, v);
        lemma_reach_back(g, r, v);
        lemma_reach_joined(g, v, r, w);
    }
}

/// The edges of a graph with one more unweighted edge: those it had, the
/// new one, and the new one back where the graph is undirected.
pub proof fn lemma_with_edge(g: GraphView, u: int, v: int, a: int, b: int)
    requires
        g.wf(),
        0 <= u < g.n(),
        0 <= v < g.n(),
        g.n() <= usize::MAX,
    ensures
        g.with_edge(u, v).step(a, b) == (g.step(a, b) || (a == u && b == v) || (!g.directed && a
            == v && b == u)),
{
    let h = g.with_edge(u, v);
    let forward = g.adj.update(u, g.adj[u].push(v as usize));
    if g.step(a, b) {
        if exists|i: int| 0 <= i < g.adj[a].len() && #[trigger] g.adj[a][i] == b {
            let i = choose|i: int| 0 <= i < g.adj[a].len() && #[trigger] g.adj[a][i] == b;
            assert(h.adj[a][i] == b);
        } else {
            let i = choose|i: int|
                0 <= i < g.weighted_adj[a].len() && (#[trigger] g.weighted_adj[a][i]).0 == b;
            assert(h.weighted_adj[a][i].0 == b);
        }
        assert(h.step(a, b));
    }
    if a == u && b == v {
        assert(forward[u][g.adj[u].len() as int] == v);
        if !g.directed && u != v {
            assert(h.adj[u][g.adj[u].len() as int] == v);
        } else {
            assert(h.adj[u][g.adj[u].len() as int] == v);
        }
        assert(h.step(a, b));
    }
    if !g.directed && a == v && b == u {
        if u != v {
            assert(h.adj[v][forward[v].len() as int] == u);
        } else {
            assert(h.adj[u][g.adj[u].len() as int] == v);
        }
        assert(h.step(a, b));
    }
    if h.step(a, b) && !g.step(a, b) {
        if exists|i: int| 0 <= i < h.adj[a].len() && #[trigger] h.adj[a][i] == b {
            let i = choose|i: int| 0 <= i < h.adj[a].len() && #[trigger] h.adj[a][i] == b;
            if a != u && a != v {
                assert(g.adj[a][i] == b);
            } else if i < g.adj[a].len() {
                assert(g.adj[a][i] == b);
            }
        } else {
            let i = choose|i: int|
                0 <= i < h.weighted_adj[a].len() && (#[trigger] h.weighted_adj[a][i]).0 == b;
            assert(g.weighted_adj[a][i].0 == b);
        }
    }
}

/// The edges of a graph with one more weighted edge: those it had, the new
/// one, and the new one back where the graph is undirected.
pub proof fn lemma_with_weighted_edge(g: GraphView, u: int, v: int, weight: i64, a: int, b: int)
    requires
        g.wf(),
        0 <= u < g.n(),
        0 <= v < g.n(),
        g.n() <= usize::MAX,
    ensures
        g.with_weighted_edge(u, v, weight).step(a, b) == (g.step(a, b) || (a == u && b == v) || (
        !g.directed && a == v && b == u)),
{
    let h = g.with_weighted_edge(u, v, weight);
    let forward = g.weighted_adj.update(u, g.weighted_adj[u].push((v as usize, weight)));
    if g.step(a, b) {
        if exists|i: int| 0 <= i < g.adj[a].len() && #[trigger] g.adj[a][i] == b {
            let i = choose|i: int| 0 <= i < g.adj[a].len() && #[trigger] g.adj[a][i] == b;
            assert(h.adj[a][i] == b);
        } else {
            let i = choose|i: int|
                0 <= i < g.weighted_adj[a].len() && (#[trigger] g.weighted_adj[a][i]).0 == b;
            assert(h.weighted_adj[a][i].0 == b);
        }
        assert(h.step(a, b));
    }
    if a == u && b == v {
        assert(forward[u][g.weighted_adj[u].len() as int].0 == v);
        assert(h.weighted_adj[u][g.weighted_adj[u].len() as int].0 == v);
        assert(h.step(a, b));
    }
    if !g.directed && a == v && b == u {
        if u != v {
            assert(h.weighted_adj[v][forward[v].len() as int].0 == u);
        } else {
            assert(h.weighted_adj[u][g.weighted_adj[u].len() as int].0 == v);
        }
        assert(h.step(a, b));
    }
    if h.step(a, b) && !g.step(a, b) {
        if exists|i: int| 0 <= i < h.adj[a].len() && #[trigger] h.adj[a][i] == b {
            let i = choose|i: int| 0 <= i < h.adj[a].len() && #[trigger] h.adj[a][i] == b;
            assert(g.adj[a][i] == b);
        } else {
            let i = choose|i: int|
                0 <= i < h.weighted_adj[a].len() && (#[trigger] h.weighted_adj[a][i]).0 == b;
            if a != u && a != v {
                assert(g.weighted_adj[a][i].0 == b);
            } else if i < g.weighted_adj[a].len() {
                assert(g.weighted_adj[a][i].0 == b);
            }
        }
    }
}

/// An undirected graph keeps an edge back for every edge when it takes
/// one more edge.
pub proof fn lemma_symmetric_kept(g: GraphView, u: int, v: int, weight: Option<i64>)
    requires
        g.wf(),
        0 <= u < g.n(),
        0 <= v < g.n(),
        g.n() <= usize::MAX,
        !g.directed,
        g.symmetric(),
    ensures
        weight is None ==> g.with_edge(u, v).symmetric(),
        weight is Some ==> g.with_weighted_edge(u, v, weight->Some_0).symmetric(),
{
    match weight {
        None => {
            let h = g.with_edge(u, v);
            assert forall|a: int, b: int| #[trigger] h.step(a, b) implies h.step(b, a) by {
                lemma_with_edge(g, u, v, a, b);
                lemma_with_edge(g, u, v, b, a);
                if g.step(a, b) {
                    assert(g.step(b, a));
                }
            }
        },
        Some(w) => {
            let h = g.with_weighted_edge(u, v, w);
            assert forall|a: int, b: int| #[trigger] h.step(a, b) implies h.step(b, a) by {
                lemma_with_weighted_edge(g, u, v, w, a, b);
                lemma_with_weighted_edge(g, u, v, w, b, a);
                if g.step(a, b) {
                    assert(g.step(b, a));
                }
            }
        },
    }
}

/// A graph on a fixed number of vertices, with unweighted and weighted
/// edges side by side.
#[derive(Debug, Clone)]
pub struct Graph {
    n: usize,
    adj: Vec<Vec<usize>>,
    weighted_adj: Vec<Vec<(usize, i64)>>,
    directed: bool,
}

impl View for Graph {
    type V = GraphView;

    closed spec fn view(&self) -> GraphView {
        GraphView {
            adj: Seq::new(self.adj@.len(), |u: int| self.adj@[u]@),
            weighted_adj: Seq::new(self.weighted_adj@.len(), |u: int| self.weighted_adj@[u]@),
            directed: self.directed,
        }
    }
}

impl Graph {
    /// The vertex count is the length of both lists, which name vertices
    /// only.
    pub closed spec fn wf(&self) -> bool {
        &&& self.n == self.adj@.len()
        &&& self@.wf()
        &&& !self.directed ==> self@.symmetric()
    }

    /// In an undirected graph every edge has an edge back.
    pub proof fn lemma_undirected(&self)
        requires
            self.wf(),
            !self@.directed,
        ensures
            self@.symmetric(),
    {
    }

    /// An undirected graph with `n` vertices and no edge.
    pub fn new(n: usize) -> (g: Graph)
        ensures
            g.wf(),
            g@ == GraphView::empty(n as nat, false),
    {
        Graph::with_direction(n, false)
    }

    /// A directed graph with `n` vertices and no edge.
    pub fn new_directed(n: usize) -> (g: Graph)
        ensures
            g.wf(),
            g@ == GraphView::empty(n as nat, true),
    {
        Graph::with_direction(n, true)
    }

    /// A graph with `n` vertices and no edge, directed or not.
    fn with_direction(n: usize, directed: bool) -> (g: Graph)
        ensures
            g.wf(),
            g@ == GraphView::empty(n as nat, directed),
    {
        let mut adj: Vec<Vec<usize>> = Vec::new();
        let mut weighted_adj: Vec<Vec<(usize, i64)>> = Vec::new();
        let mut i: usize = 0;
        while i < n
            invariant
                i <= n,
                adj@.len() == i,
                weighted_adj@.len() == i,
                forall|u: int| 0 <= u < i ==> (#[trigger] adj@[u])@ == Seq::<usize>::empty(),
                forall|u: int|
                    0 <= u < i ==> (#[trigger] weighted_adj@[u])@ == Seq::<(usize, i64)>::empty(),
            decreases n - i,
        {
            adj.push(Vec::new());
            weighted_adj.push(Vec::new());
            i += 1;
        }
        let g = Graph { n, adj, weighted_adj, directed };
        proof {
            assert(g@.adj =~= GraphView::empty(n as nat, directed).adj);
            assert(g@.weighted_adj =~= GraphView::empty(n as nat, directed).weighted_adj);
        }
        g
    }

    /// The number of vertices.
    pub fn size(&self) -> (n: usize)
        ensures
            self.wf() ==> n == self@.n(),
    {
        self.n
    }

    /// Adds an unweighted edge between `u` and `v`: from `u` to `v`, and
    /// back where the graph is undirected and the edge is no loop.
    pub fn add_edge(&mut self, u: usize, v: usize)
        requires
            old(self).wf(),
            u < old(self)@.n(),
            v < old(self)@.n(),
        ensures
            final(self).wf(),
            final(self)@ == old(self)@.with_edge(u as int, v as int),
    {
        let ghost before = self@;
        self.adj[u].push(v);
        if !self.directed && u != v {
            self.adj[v].push(u);
        }
        proof {
            let after = before.with_edge(u as int, v as int);
            assert(self@.adj =~= after.adj);
            assert(self@.weighted_adj =~= after.weighted_adj);
            if !self.directed {
                lemma_symmetric_kept(before, u as int, v as int, None);
            }
        }
    }

    /// Adds an edge of weight `weight` between `u` and `v`: from `u` to
    /// `v`, and back where the graph is undirected and the edge is no loop.
    pub fn add_weighted_edge(&mut self, u: usize, v: usize, weight: i64)
        requires
            old(self).wf(),
            u < old(self)@.n(),
            v < old(self)@.n(),
        ensures
            final(self).wf(),
            final(self)@ == old(self)@.with_weighted_edge(u as int, v as int, weight),
    {
        let ghost before = self@;
        self.weighted_adj[u].push((v, weight));
        if !self.directed && u != v {
            self.weighted_adj[v].push((u, weight));
        }
        proof {
            let after = before.with_weighted_edge(u as int, v as int, weight);
            assert(self@.adj =~= after.adj);
            assert(self@.weighted_adj =~= after.weighted_adj);
            if !self.directed {
                lemma_symmetric_kept(before, u as int, v as int, Some(weight));
            }
        }
    }

    /// The unweighted neighbours of `u`, in the order in which the edges
    /// were added.
    pub fn neighbors(&self, u: usize) -> (list: &[usize])
        requires
            self.wf(),
            u < self@.n(),
        ensures
            list@ == self@.adj[u as int],
    {
        self.adj[u].as_slice()
    }

    /// The weighted neighbours of `u` with the weights of the edges, in the
    /// order in which the edges were added.
    pub fn weighted_neighbors(&self, u: usize) -> (list: &[(usize, i64)])
        requires
            self.wf(),
            u < self@.n(),
        ensures
            list@ == self@.weighted_adj[u as int],
    {
        self.weighted_adj[u].as_slice()
    }

    /// Whether the graph is directed.
    pub fn is_directed(&self) -> (directed: bool)
        ensures
            directed == self@.directed,
    {
        self.directed
    }

    /// The number of unweighted edges that leave `u`.
    pub fn degree(&self, u: usize) -> (d: usize)
        requires
            self.wf(),
            u < self@.n(),
        ensures
            d == self@.adj[u as int].len(),
    {
        self.adj[u].len()
    }

    /// The number of weighted edges that leave `u`.
    pub fn weighted_degree(&self, u: usize) -> (d: usize)
        requires
            self.wf(),
            u < self@.n(),
        ensures
            d == self@.weighted_adj[u as int].len(),
    {
        self.weighted_adj[u].len()
    }

    /// For every vertex, whether edges lead to it from `start`.
    pub fn dfs(&self, start: usize) -> (visited: Vec<bool>)
        requires
            self.wf(),
            start < self@.n(),
        ensures
            visited@.len() == self@.n(),
            forall|v: int|
                0 <= v < self@.n() ==> (#[trigger] visited@[v] <==> self@.reachable(start as int, v)),
    {
        let mut visited: Vec<bool> = vec![false; self.n];
        proof {
            lemma_reach_self(self@, start as int);
        }
        self.dfs_helper(start, &mut visited, Ghost(start as int));
        proof {
            let g = self@;
            let marked = visited@;
            assert forall|x: int, y: int|
                0 <= x < g.n() && marked[x] && #[trigger] g.step(x, y) implies 0 <= y < g.n()
                && marked[y] by {
                self.lemma_step_in_range(x, y);
            }
            assert forall|v: int| 0 <= v < g.n() && g.reachable(start as int, v) implies marked[v] by {
                lemma_closed_holds_reachable(g, marked, start as int, v);
            }
        }
        visited
    }

    /// An edge ends at a vertex.
    proof fn lemma_step_in_range(&self, x: int, y: int)
        requires
            self.wf(),
            self@.step(x, y),
        ensures
            0 <= y < self@.n(),
    {
        let g = self@;
        if exists|i: int| 0 <= i < g.adj[x].len() && #[trigger] g.adj[x][i] == y {
            let i = choose|i: int| 0 <= i < g.adj[x].len() && #[trigger] g.adj[x][i] == y;
            assert(g.adj[x][i] < g.adj.len());
        } else {
            let i = choose|i: int|
                0 <= i < g.weighted_adj[x].len() && (#[trigger] g.weighted_adj[x][i]).0 == y;
            assert(g.weighted_adj[x][i].0 < g.adj.len());
        }
    }

    /// Marks `u` and all that edges lead to from it through vertices not yet
    /// marked.
    #[verifier::rlimit(40)]
    fn dfs_helper(&self, u: usize, visited: &mut Vec<bool>, Ghost(root): Ghost<int>)
        requires
            self.wf(),
            u < self@.n(),
            old(visited)@.len() == self@.n(),
            !old(visited)@[u as int],
            self@.reachable(root, u as int),
            forall|v: int| 0 <= v < self@.n() && old(visited)@[v] ==> self@.reachable(root, v),
        ensures
            final(visited)@.len() == self@.n(),
            final(visited)@[u as int],
            forall|v: int| 0 <= v < self@.n() && old(visited)@[v] ==> final(visited)@[v],
            forall|v: int| 0 <= v < self@.n() && final(visited)@[v] ==> self@.reachable(root, v),
            forall|a: int, b: int|
                0 <= a < self@.n() && final(visited)@[a] && !old(visited)@[a] && #[trigger] self@.step(
                    a,
                    b,
                ) ==> final(visited)@[b],
        decreases unmarked(old(visited)@),
    {
        let ghost g = self@;
        let ghost before = visited@;
        visited.set(u, true);
        let ghost entered = visited@;
        proof {
            lemma_unmarked_shrinks(before, entered, u as int);
        }
        let mut i: usize = 0;
        while i < self.adj[u].len()
            invariant
                self.wf(),
                g == self@,
                u < g.n(),
                visited@.len() == g.n(),
                before == old(visited)@,
                before.len() == g.n(),
                visited@[u as int],
                i <= self.adj@[u as int]@.len(),
                unmarked(visited@) < unmarked(before),
                forall|v: int| 0 <= v < g.n() && before[v] ==> visited@[v],
                forall|v: int| 0 <= v < g.n() && visited@[v] ==> g.reachable(root, v),
                forall|a: int, b: int|
                    0 <= a < g.n() && a != u && visited@[a] && !before[a] && #[trigger] g.step(a, b)
                        ==> visited@[b],
                forall|k: int| 0 <= k < i ==> visited@[#[trigger] g.adj[u as int][k] as int],
            decreases self.adj@[u as int]@.len() - i,
        {
            let v = self.adj[u][i];
            proof {
                assert(g.adj[u as int][i as int] == v);
                assert(v < g.n());
                assert(g.step(u as int, v as int));
            }
            if !visited[v] {
                let ghost mid = visited@;
                proof {
                    lemma_reach_extend(g, root, u as int, v as int);
                }
                self.dfs_helper(v, visited, Ghost(root));
                proof {
                    lemma_unmarked_shrinks(mid, visited@, v as int);
                    assert forall|a: int, b: int|
                        0 <= a < g.n() && a != u && visited@[a] && !before[a] && #[trigger] g.step(
                            a,
                            b,
                        ) implies visited@[b] by {
                        self.lemma_step_in_range(a, b);
                        if mid[a] {
                            assert(mid[b]);
                        }
                    }
                }
            }
            i += 1;
        }
        let mut j: usize = 0;
        while j < self.weighted_adj[u].len()
            invariant
                self.wf(),
                g == self@,
                u < g.n(),
                visited@.len() == g.n(),
                before == old(visited)@,
                before.len() == g.n(),
                visited@[u as int],
                j <= self.weighted_adj@[u as int]@.len(),
                unmarked(visited@) < unmarked(before),
                forall|v: int| 0 <= v < g.n() && before[v] ==> visited@[v],
                forall|v: int| 0 <= v < g.n() && visited@[v] ==> g.reachable(root, v),
                forall|a: int, b: int|
                    0 <= a < g.n() && a != u && visited@[a] && !before[a] && #[trigger] g.step(a, b)
                        ==> visited@[b],
                forall|k: int|
                    0 <= k < g.adj[u as int].len() ==> visited@[#[trigger] g.adj[u as int][k] as int],
                forall|k: int|
                    0 <= k < j ==> visited@[(#[trigger] g.weighted_adj[u as int][k]).0 as int],
            decreases self.weighted_adj@[u as int]@.len() - j,
        {
            let v = self.weighted_adj[u][j].0;
            proof {
                assert(g.weighted_adj[u as int][j as int].0 == v);
                assert(v < g.n());
                assert(g.step(u as int, v as int));
            }
            if !visited[v] {
                let ghost mid = visited@;
                proof {
                    lemma_reach_extend(g, root, u as int, v as int);
                }
                self.dfs_helper(v, visited, Ghost(root));
                proof {
                    lemma_unmarked_shrinks(mid, visited@, v as int);
                    assert forall|a: int, b: int|
                        0 <= a < g.n() && a != u && visited@[a] && !before[a] && #[trigger] g.step(
                            a,
                            b,
                        ) implies visited@[b] by {
                        self.lemma_step_in_range(a, b);
                        if mid[a] {
                            assert(mid[b]);
                        }
                    }
                }
            }
            j += 1;
        }
    }

    /// Whether edges lead from `u` to `v`.
    pub fn are_connected(&self, u: usize, v: usize) -> (connected: bool)
        requires
            self.wf(),
            u < self@.n(),
            v < self@.n(),
        ensures
            connected == self@.reachable(u as int, v as int),
    {
        let visited = self.dfs(u);
        visited[v]
    }

    /// Whether some weighted edge has a negative weight.
    pub fn has_negative_edges(&self) -> (negative: bool)
        requires
            self.wf(),
        ensures
            negative == exists|u: int, i: int|
                0 <= u < self@.n() && 0 <= i < self@.weighted_adj[u].len() && (
                #[trigger] self@.weighted_adj[u][i]).1 < 0,
    {
        let mut u: usize = 0;
        while u < self.weighted_adj.len()
            invariant
                self.wf(),
                u <= self.weighted_adj@.len(),
                forall|a: int, i: int|
                    0 <= a < u && 0 <= i < self@.weighted_adj[a].len() ==> (
                    #[trigger] self@.weighted_adj[a][i]).1 >= 0,
            decreases self.weighted_adj@.len() - u,
        {
            let mut i: usize = 0;
            while i < self.weighted_adj[u].len()
                invariant
                    self.wf(),
                    u < self.weighted_adj@.len(),
                    i <= self.weighted_adj@[u as int]@.len(),
                    forall|a: int, k: int|
                        0 <= a < u && 0 <= k < self@.weighted_adj[a].len() ==> (
                        #[trigger] self@.weighted_adj[a][k]).1 >= 0,
                    forall|k: int| 0 <= k < i ==> (#[trigger] self@.weighted_adj[u as int][k]).1 >= 0,
                decreases self.weighted_adj@[u as int]@.len() - i,
            {
                if self.weighted_adj[u][i].1 < 0 {
                    proof {
                        assert(self@.weighted_adj[u as int][i as int].1 < 0);
                    }
                    return true;
                }
                i += 1;
            }
            u += 1;
        }
        false
    }

    /// For every vertex the number of its component. A scan over the
    /// vertices opens a component at every vertex that no earlier component
    /// holds, and gives its number to all that edges lead to from there and
    /// that no earlier component holds.
    #[verifier::rlimit(40)]
    pub fn connected_components(&self) -> (component: Vec<usize>)
        requires
            self.wf(),
        ensures
            component@.len() == self@.n(),
            labels_components(self@, component@),
            forall|v: int| 0 <= v < self@.n() ==> #[trigger] component@[v] < self@.n(),
    {
        let ghost g = self@;
        let n = self.n;
        let mut component: Vec<usize> = vec![usize::MAX; n];
        let mut component_id: usize = 0;
        let ghost mut roots: Seq<int> = Seq::empty();
        let mut i: usize = 0;
        while i < n
            invariant
                self.wf(),
                g == self@,
                n == g.n(),
                i <= n,
                component@.len() == n,
                component_id <= i,
                roots.len() == component_id,
                leaders_below(component@, i as int) == component_id,
                forall|v: int| 0 <= v < i ==> #[trigger] component@[v] != usize::MAX,
                forall|v: int|
                    0 <= v < n && #[trigger] component@[v] != usize::MAX ==> component@[v]
                        < component_id,
                forall|a: int, b: int|
                    0 <= a < n && 0 <= b < n && component@[a] != usize::MAX && #[trigger] g.step(a, b)
                        ==> component@[b] <= component@[a],
                forall|c: int|
                    0 <= c < roots.len() ==> 0 <= #[trigger] roots[c] < i && component@[roots[c]]
                        == c && is_leader(component@, roots[c]),
                forall|v: int|
                    0 <= v < n && component@[v] != usize::MAX ==> roots[#[trigger] component@[v] as int]
                        <= v && g.reachable(roots[component@[v] as int], v),
            decreases n - i,
        {
            let ghost before = component@;
            if component[i] == usize::MAX {
                proof {
                    lemma_reach_self(g, i as int);
                }
                self.dfs_component(i, &mut component, component_id, Ghost(i as int));
                proof {
                    let after = component@;
                    lemma_leaders_agree(before, after, i as int);
                    assert(is_leader(after, i as int)) by {
                        assert forall|w: int| 0 <= w < i implies #[trigger] after[w] < after[i as int] by {
                            assert(before[w] != usize::MAX);
                        }
                    }
                    roots = roots.push(i as int);
                    assert forall|c: int| 0 <= c < roots.len() implies 0 <= #[trigger] roots[c] < i
                        + 1 && after[roots[c]] == c && is_leader(after, roots[c]) by {
                        if c < component_id {
                            assert(before[roots[c]] == c);
                        }
                    }
                    assert forall|a: int, b: int|
                        0 <= a < n && 0 <= b < n && after[a] != usize::MAX && #[trigger] g.step(
                            a,
                            b,
                        ) implies after[b] <= after[a] by {
                        if before[a] != usize::MAX {
                            assert(before[b] <= before[a]);
                        }
                    }
                    assert forall|v: int| 0 <= v < n && after[v] != usize::MAX implies roots[
                    #[trigger] after[v] as int] <= v && g.reachable(roots[after[v] as int], v) by {
                        if before[v] != usize::MAX {
                            assert(roots[before[v] as int] <= v);
                        } else {
                            assert(after[v] == component_id);
                            if v < i {
                                assert(before[v] != usize::MAX);
                            }
                        }
                    }
                }
                component_id += 1;
            } else {
                proof {
                    let c = before[i as int] as int;
                    assert(roots[c] <= i);
                    assert(roots[c] < i);
                    assert(before[roots[c]] == before[i as int]);
                    assert(!is_leader(before, i as int));
                }
            }
            i += 1;
        }
        proof {
            reveal(labels_components);
            let comp = component@;
            assert forall|v: int| 0 <= v < n implies #[trigger] led(g, comp, v) by {
                let r = roots[comp[v] as int];
                assert(comp[r] == comp[v]);
            }
            assert forall|r: int| 0 <= r < n && is_leader(comp, r) implies #[trigger] comp[r]
                == leaders_below(comp, r) by {
                let c = comp[r] as int;
                if roots[c] < r {
                    assert(comp[roots[c]] < comp[r]);
                }
                assert(roots[c] == r);
                lemma_leaders_count(comp, roots, c);
            }
        }
        component
    }

    /// Gives the label `comp_id` to `u` and to all that edges lead to from it
    /// through vertices without a label.
    #[verifier::rlimit(40)]
    fn dfs_component(
        &self,
        u: usize,
        component: &mut Vec<usize>,
        comp_id: usize,
        Ghost(root): Ghost<int>,
    )
        requires
            self.wf(),
            u < self@.n(),
            comp_id < usize::MAX,
            old(component)@.len() == self@.n(),
            old(component)@[u as int] == usize::MAX,
            self@.reachable(root, u as int),
            forall|v: int|
                0 <= v < self@.n() && old(component)@[v] == comp_id ==> self@.reachable(root, v),
        ensures
            final(component)@.len() == self@.n(),
            final(component)@[u as int] == comp_id,
            forall|v: int|
                0 <= v < self@.n() && old(component)@[v] != usize::MAX ==> final(component)@[v] == old(
                    component,
                )@[v],
            forall|v: int|
                0 <= v < self@.n() && old(component)@[v] == usize::MAX ==> final(component)@[v]
                    == usize::MAX || final(component)@[v] == comp_id,
            forall|v: int|
                0 <= v < self@.n() && final(component)@[v] == comp_id ==> self@.reachable(root, v),
            forall|a: int, b: int|
                0 <= a < self@.n() && 0 <= b < self@.n() && final(component)@[a] != usize::MAX && old(
                    component,
                )@[a] == usize::MAX && #[trigger] self@.step(a, b) ==> final(component)@[b]
                    != usize::MAX,
        decreases unassigned(old(component)@),
    {
        let ghost g = self@;
        let ghost before = component@;
        component.set(u, comp_id);
        proof {
            lemma_unassigned_shrinks(before, component@, u as int);
        }
        let mut i: usize = 0;
        while i < self.adj[u].len()
            invariant
                self.wf(),
                g == self@,
                u < g.n(),
                comp_id < usize::MAX,
                component@.len() == g.n(),
                before == old(component)@,
                before.len() == g.n(),
                component@[u as int] == comp_id,
                before[u as int] == usize::MAX,
                i <= self.adj@[u as int]@.len(),
                unassigned(component@) < unassigned(before),
                forall|v: int|
                    0 <= v < g.n() && before[v] != usize::MAX ==> component@[v] == before[v],
                forall|v: int|
                    0 <= v < g.n() && before[v] == usize::MAX ==> component@[v] == usize::MAX
                        || component@[v] == comp_id,
                forall|v: int| 0 <= v < g.n() && component@[v] == comp_id ==> g.reachable(root, v),
                forall|a: int, b: int|
                    0 <= a < g.n() && 0 <= b < g.n() && a != u && component@[a] != usize::MAX
                        && before[a] == usize::MAX && #[trigger] g.step(a, b) ==> component@[b]
                        != usize::MAX,
                forall|k: int|
                    0 <= k < i ==> component@[#[trigger] g.adj[u as int][k] as int] != usize::MAX,
            decreases self.adj@[u as int]@.len() - i,
        {
            let v = self.adj[u][i];
            proof {
                assert(g.adj[u as int][i as int] == v);
                assert(v < g.n());
                assert(g.step(u as int, v as int));
            }
            if component[v] == usize::MAX {
                let ghost mid = component@;
                proof {
                    lemma_reach_extend(g, root, u as int, v as int);
                }
                self.dfs_component(v, component, comp_id, Ghost(root));
                proof {
                    lemma_unassigned_shrinks(mid, component@, v as int);
                    assert forall|a: int, b: int|
                        0 <= a < g.n() && 0 <= b < g.n() && a != u && component@[a] != usize::MAX
                            && before[a] == usize::MAX && #[trigger] g.step(a, b) implies component@[b]
                        != usize::MAX by {
                        if mid[a] != usize::MAX {
                            assert(mid[b] != usize::MAX);
                        }
                    }
                }
            }
            i += 1;
        }
        let mut j: usize = 0;
        while j < self.weighted_adj[u].len()
            invariant
                self.wf(),
                g == self@,
                u < g.n(),
                comp_id < usize::MAX,
                component@.len() == g.n(),
                before == old(component)@,
                before.len() == g.n(),
                component@[u as int] == comp_id,
                before[u as int] == usize::MAX,
                j <= self.weighted_adj@[u as int]@.len(),
                unassigned(component@) < unassigned(before),
                forall|v: int|
                    0 <= v < g.n() && before[v] != usize::MAX ==> component@[v] == before[v],
                forall|v: int|
                    0 <= v < g.n() && before[v] == usize::MAX ==> component@[v] == usize::MAX
                        || component@[v] == comp_id,
                forall|v: int| 0 <= v < g.n() && component@[v] == comp_id ==> g.reachable(root, v),
                forall|a: int, b: int|
                    0 <= a < g.n() && 0 <= b < g.n() && a != u && component@[a] != usize::MAX
                        && before[a] == usize::MAX && #[trigger] g.step(a, b) ==> component@[b]
                        != usize::MAX,
                forall|k: int|
                    0 <= k < g.adj[u as int].len() ==> component@[#[trigger] g.adj[u as int][k] as int]
                        != usize::MAX,
                forall|k: int|
                    0 <= k < j ==> component@[(#[trigger] g.weighted_adj[u as int][k]).0 as int]
                        != usize::MAX,
            decreases self.weighted_adj@[u as int]@.len() - j,
        {
            let v = self.weighted_adj[u][j].0;
            proof {
                assert(g.weighted_adj[u as int][j as int].0 == v);
                assert(v < g.n());
                assert(g.step(u as int, v as int));
            }
            if component[v] == usize::MAX {
                let ghost mid = component@;
                proof {
                    lemma_reach_extend(g, root, u as int, v as int);
                }
                self.dfs_component(v, component, comp_id, Ghost(root));
                proof {
                    lemma_unassigned_shrinks(mid, component@, v as int);
                    assert forall|a: int, b: int|
                        0 <= a < g.n() && 0 <= b < g.n() && a != u && component@[a] != usize::MAX
                            && before[a] == usize::MAX && #[trigger] g.step(a, b) implies component@[b]
                        != usize::MAX by {
                        if mid[a] != usize::MAX {
                            assert(mid[b] != usize::MAX);
                        }
                    }
                }
            }
            j += 1;
        }
    }

    /// The number of components that `connected_components` finds.
    #[verifier::rlimit(40)]
    pub fn count_components(&self) -> (count: usize)
        requires
            self.wf(),
        ensures
            exists|comp: Seq<usize>|
                #[trigger] labels_components(self@, comp) && count == leaders_below(
                    comp,
                    self@.n() as int,
                ),
    {
        let components = self.connected_components();
        if components.len() == 0 {
            proof {
                assert(leaders_below(components@, 0) == 0);
            }
            return 0;
        }
        let ghost comp = components@;
        let total = components.len();
        let mut largest: usize = components[0];
        let mut k: usize = 1;
        proof {
            lemma_numbered(self@, comp);
            lemma_count_first(comp);
        }
        while k < components.len()
            invariant
                comp == components@,
                1 <= k <= comp.len(),
                total == comp.len(),
                largest < total,
                numbered(comp),
                forall|w: int| 0 <= w < k ==> #[trigger] comp[w] <= largest,
                largest + 1 == leaders_below(comp, k as int),
            decreases comp.len() - k,
        {
            proof {
                lemma_count_step(comp, k as int, largest as int);
            }
            if components[k] > largest {
                largest = components[k];
            }
            k += 1;
        }
        largest + 1
    }
}

/// Whether every leader carries the number of leaders before it, and every
/// label is less than the number of vertices.
#[verifier::opaque]
pub open spec fn numbered(comp: Seq<usize>) -> bool {
    &&& forall|r: int|
        0 <= r < comp.len() && is_leader(comp, r) ==> #[trigger] comp[r] == leaders_below(comp, r)
    &&& forall|v: int| 0 <= v < comp.len() ==> #[trigger] comp[v] < comp.len()
}

/// A labelling of the components numbers the leaders.
proof fn lemma_numbered(g: GraphView, comp: Seq<usize>)
    requires
        comp.len() == g.n(),
        labels_components(g, comp),
        forall|v: int| 0 <= v < comp.len() ==> #[trigger] comp[v] < comp.len(),
    ensures
        numbered(comp),
{
    reveal(numbered);
    reveal(labels_components);
}

/// The first vertex is a leader with the label zero.
proof fn lemma_count_first(comp: Seq<usize>)
    requires
        numbered(comp),
        comp.len() > 0,
    ensures
        comp[0] < comp.len(),
        comp[0] + 1 == leaders_below(comp, 1),
{
    reveal(numbered);
    assert(is_leader(comp, 0));
    assert(leaders_below(comp, 0) == 0);
    assert(leaders_below(comp, 1) == leaders_below(comp, 0) + 1);
}

/// Scanning the labels for the largest: a label above all earlier ones
/// belongs to a leader and is the number of leaders before it.
proof fn lemma_count_step(comp: Seq<usize>, k: int, largest: int)
    requires
        numbered(comp),
        1 <= k < comp.len(),
        forall|w: int| 0 <= w < k ==> #[trigger] comp[w] <= largest,
        largest + 1 == leaders_below(comp, k),
    ensures
        comp[k] < comp.len(),
        comp[k] > largest ==> comp[k] + 1 == leaders_below(comp, k + 1),
        comp[k] <= largest ==> largest + 1 == leaders_below(comp, k + 1),
{
    reveal(numbered);
    assert(leaders_below(comp, k + 1) == leaders_below(comp, k) + if is_leader(comp, k) {
        1nat
    } else {
        0nat
    });
    if comp[k] > largest {
        assert(is_leader(comp, k)) by {
            assert forall|w: int| 0 <= w < k implies #[trigger] comp[w] < comp[k] by {}
        }
        assert(comp[k] == leaders_below(comp, k));
    } else {
        if is_leader(comp, k) {
            assert(comp[k] == leaders_below(comp, k));
        }
    }
}

/// The number of entries of `component` that carry no label yet.
pub open spec fn unassigned(component: Seq<usize>) -> nat
    decreases component.len(),
{
    if component.len() == 0 {
        0
    } else {
        unassigned(component.drop_last()) + if component.last() == usize::MAX {
            1nat
        } else {
            0nat
        }
    }
}

/// Labelling entries leaves no more of them without a label, and one less
/// where the entry at `u` had none and now has one.
pub proof fn lemma_unassigned_shrinks(before: Seq<usize>, after: Seq<usize>, u: int)
    requires
        before.len() == after.len(),
        forall|i: int| 0 <= i < before.len() && before[i] != usize::MAX ==> after[i] != usize::MAX,
    ensures
        unassigned(after) <= unassigned(before),
        0 <= u < before.len() && before[u] == usize::MAX && after[u] != usize::MAX ==> unassigned(
            after,
        ) < unassigned(before),
    decreases before.len(),
{
    if before.len() > 0 {
        lemma_unassigned_shrinks(before.drop_last(), after.drop_last(), u);
    }
}

/// Where the first vertices of the components are listed in ascending
/// order, the number of leaders before the first vertex of component `c`
/// is `c`.
proof fn lemma_leaders_count(comp: Seq<usize>, roots: Seq<int>, c: int)
    requires
        0 <= c < roots.len(),
        forall|d: int|
            0 <= d < roots.len() ==> 0 <= #[trigger] roots[d] < comp.len() && comp[roots[d]] == d
                && is_leader(comp, roots[d]),
        forall|v: int|
            0 <= v < comp.len() ==> 0 <= #[trigger] comp[v] < roots.len() && roots[comp[v] as int]
                <= v,
    ensures
        leaders_below(comp, roots[c]) == c,
    decreases c,
{
    if c == 0 {
        lemma_no_leaders_between(comp, roots, -1, roots[0]);
    } else {
        lemma_leaders_count(comp, roots, c - 1);
        assert(comp[roots[c - 1]] < comp[roots[c]]);
        if roots[c] <= roots[c - 1] {
            if roots[c] < roots[c - 1] {
                assert(comp[roots[c]] < comp[roots[c - 1]]);
            }
        }
        lemma_no_leaders_between(comp, roots, roots[c - 1], roots[c]);
        assert(leaders_below(comp, roots[c - 1] + 1) == leaders_below(comp, roots[c - 1]) + 1);
    }
}

/// No vertex strictly between the first vertices of two consecutive
/// components is a leader.
proof fn lemma_no_leaders_between(comp: Seq<usize>, roots: Seq<int>, lo: int, hi: int)
    requires
        -1 <= lo < hi <= comp.len(),
        forall|d: int|
            0 <= d < roots.len() ==> 0 <= #[trigger] roots[d] < comp.len() && comp[roots[d]] == d
                && is_leader(comp, roots[d]),
        forall|v: int|
            0 <= v < comp.len() ==> 0 <= #[trigger] comp[v] < roots.len() && roots[comp[v] as int]
                <= v,
        forall|v: int| lo < v < hi ==> roots[#[trigger] comp[v] as int] != v,
    ensures
        leaders_below(comp, hi) == leaders_below(comp, lo + 1),
    decreases hi - lo,
{
    if lo + 1 < hi {
        lemma_no_leaders_between(comp, roots, lo, hi - 1);
        let v = hi - 1;
        let r = roots[comp[v] as int];
        assert(r < v);
        assert(comp[r] == comp[v]);
        assert(!is_leader(comp, v));
    }
}

} // verus!
