//! What holds at each step of the shortest-path search, and why it yields the
//! distance.

use vstd::prelude::*;
use crate::route::{
    Edge, UNREACHABLE, distance, is_edge, is_path, is_shortest, lemma_distance_unreachable,
    lemma_edge_weight, lemma_path_push, path_cost, undirected,
};

verus! {

/// Frontier order: the lower cost first, and of equal costs the lower node id.
pub open spec fn entry_le(x: (i32, i32), y: (i32, i32)) -> bool {
    x.0 < y.0 || (x.0 == y.0 && x.1 <= y.1)
}

/// The state of a search from `start` for `goal`: best known costs `dist`,
/// frontier entries `(cost, node)` and the settled nodes `settled`.
pub open spec fn search_state(
    adj: Map<i32, Vec<Edge>>,
    start: i32,
    goal: i32,
    dist: Map<i32, i32>,
    frontier: Seq<(i32, i32)>,
    settled: Set<i32>,
) -> bool {
    // every reached node that is not settled waits in the frontier at its best cost
    &&& forall|y: i32|
        #[trigger] dist.contains_key(y) && !settled.contains(y) ==> in_frontier(frontier, dist[y], y)
    &&& search_core(adj, start, goal, dist, frontier, settled)
}

/// All of `search_state` but the frontier's hold on the nodes not yet settled.
pub open spec fn search_core(
    adj: Map<i32, Vec<Edge>>,
    start: i32,
    goal: i32,
    dist: Map<i32, i32>,
    frontier: Seq<(i32, i32)>,
    settled: Set<i32>,
) -> bool {
    &&& dist.contains_key(start) && dist[start] == 0
    &&& !settled.contains(goal)
    &&& forall|y: i32| #[trigger] dist.contains_key(y) ==> 0 <= dist[y] < UNREACHABLE
    // every entry costs no less than the best known cost of its node
    &&& forall|j: int|
        #![trigger frontier[j]]
        0 <= j < frontier.len() ==> dist.contains_key(frontier[j].1) && dist[frontier[j].1]
            <= frontier[j].0
    // every best known cost is the cost of a path
    &&& forall|y: i32| #[trigger] dist.contains_key(y) ==> reached_at(adj, start, y, dist[y] as int)
    // a settled node's cost is final
    &&& forall|u: i32| #[trigger] settled.contains(u) ==> dist.contains_key(u)
    &&& forall|u: i32, p: Seq<Edge>|
        #![trigger settled.contains(u), is_path(adj, p, start, u)]
        settled.contains(u) && is_path(adj, p, start, u) ==> dist[u] <= path_cost(p)
    // the edges of a settled node have been relaxed
    &&& forall|u: i32, i: int|
        #![trigger settled.contains(u), adj[u]@[i]]
        settled.contains(u) && adj.contains_key(u) && 0 <= i < adj[u]@.len() ==> relaxed(
            dist,
            dist[u],
            adj[u]@[i],
        )
}

pub open spec fn in_frontier(frontier: Seq<(i32, i32)>, c: i32, y: i32) -> bool {
    exists|j: int| 0 <= j < frontier.len() && frontier[j] == (c, y)
}

pub open spec fn reached_at(adj: Map<i32, Vec<Edge>>, start: i32, y: i32, c: int) -> bool {
    exists|p: Seq<Edge>| is_path(adj, p, start, y) && path_cost(p) == c
}

/// Leaving a node at cost `c` along `e` cannot improve on the best known cost of
/// the edge's end, unless it reaches the sentinel.
pub open spec fn relaxed(dist: Map<i32, i32>, c: i32, e: Edge) -> bool {
    c + e.weight < UNREACHABLE ==> dist.contains_key(e.node_b_id) && dist[e.node_b_id] <= c
        + e.weight
}

/// Some frontier entry costs no more than any path below the sentinel to a node
/// that is not settled.
pub proof fn lemma_frontier_bounds_paths(
    adj: Map<i32, Vec<Edge>>,
    start: i32,
    goal: i32,
    dist: Map<i32, i32>,
    frontier: Seq<(i32, i32)>,
    settled: Set<i32>,
    p: Seq<Edge>,
    x: i32,
)
    requires
        undirected(adj),
        search_state(adj, start, goal, dist, frontier, settled),
        is_path(adj, p, start, x),
        !settled.contains(x),
        path_cost(p) < UNREACHABLE,
    ensures
        exists|j: int| 0 <= j < frontier.len() && frontier[j].0 <= path_cost(p),
    decreases p.len(),
{
    if p.len() == 0 {
        assert(dist.contains_key(start));
        let j = choose|j: int| 0 <= j < frontier.len() && frontier[j] == (dist[start], start);
        assert(frontier[j].0 <= path_cost(p));
    } else {
        let e = p.last();
        let q = p.drop_last();
        let u = e.node_a_id;
        lemma_edge_weight(adj, e);
        assert(is_path(adj, q, start, u));
        if settled.contains(u) {
            let i = choose|i: int| 0 <= i < adj[u]@.len() && adj[u]@[i] == e;
            assert(relaxed(dist, dist[u], adj[u]@[i]));
            assert(dist[u] <= path_cost(q));
            assert(dist.contains_key(x));
            let j = choose|j: int| 0 <= j < frontier.len() && frontier[j] == (dist[x], x);
            assert(frontier[j].0 <= path_cost(p));
        } else {
            lemma_frontier_bounds_paths(adj, start, goal, dist, frontier, settled, q, u);
        }
    }
}

/// A least frontier entry for a node that is not settled holds that node's
/// final cost.
pub proof fn lemma_least_entry_final(
    adj: Map<i32, Vec<Edge>>,
    start: i32,
    goal: i32,
    dist: Map<i32, i32>,
    frontier: Seq<(i32, i32)>,
    settled: Set<i32>,
    m: int,
)
    requires
        undirected(adj),
        search_state(adj, start, goal, dist, frontier, settled),
        0 <= m < frontier.len(),
        forall|j: int| 0 <= j < frontier.len() ==> entry_le(frontier[m], #[trigger] frontier[j]),
        !settled.contains(frontier[m].1),
    ensures
        dist[frontier[m].1] == frontier[m].0,
        forall|p: Seq<Edge>|
            #[trigger] is_path(adj, p, start, frontier[m].1) ==> frontier[m].0 <= path_cost(p),
        is_shortest(adj, start, frontier[m].1, frontier[m].0 as int),
{
    let (c, v) = frontier[m];
    assert(dist.contains_key(v));
    let j = choose|j: int| 0 <= j < frontier.len() && frontier[j] == (dist[v], v);
    assert(entry_le(frontier[m], frontier[j]));
    assert forall|p: Seq<Edge>| #[trigger] is_path(adj, p, start, v) implies c <= path_cost(p) by {
        if path_cost(p) < UNREACHABLE {
            lemma_frontier_bounds_paths(adj, start, goal, dist, frontier, settled, p, v);
            let k = choose|k: int| 0 <= k < frontier.len() && frontier[k].0 <= path_cost(p);
            assert(entry_le(frontier[m], frontier[k]));
        }
    }
    assert(reached_at(adj, start, v, dist[v] as int));
}

/// Settling a node of the adjacency map leaves fewer of its nodes unsettled;
/// settling another leaves as many.
pub proof fn lemma_settle_count(dom: Set<i32>, settled: Set<i32>, v: i32)
    requires
        dom.finite(),
        !settled.contains(v),
    ensures
        dom.contains(v) ==> dom.difference(settled.insert(v)).len() < dom.difference(
            settled,
        ).len(),
        !dom.contains(v) ==> dom.difference(settled.insert(v)) == dom.difference(settled),
{
    assert(dom.difference(settled.insert(v)) =~= dom.difference(settled).remove(v));
    if !dom.contains(v) {
        assert(dom.difference(settled).remove(v) =~= dom.difference(settled));
    }
}

/// Lowering the best known cost of the end of an edge of the node being settled,
/// and adding an entry for it, keeps the search state.
pub proof fn lemma_relax(
    adj: Map<i32, Vec<Edge>>,
    start: i32,
    goal: i32,
    dist: Map<i32, i32>,
    frontier: Seq<(i32, i32)>,
    settled: Set<i32>,
    via: Seq<Edge>,
    e: Edge,
    c: i32,
)
    requires
        undirected(adj),
        search_core(adj, start, goal, dist, frontier, settled),
        forall|y: i32|
            #[trigger] dist.contains_key(y) && !settled.contains(y) && y != e.node_a_id
                ==> in_frontier(frontier, dist[y], y),
        dist.contains_key(e.node_a_id),
        dist[e.node_a_id] == c,
        !settled.contains(e.node_a_id),
        is_path(adj, via, start, e.node_a_id),
        path_cost(via) == c,
        is_edge(adj, e),
        c + e.weight < UNREACHABLE,
        !dist.contains_key(e.node_b_id) || c + e.weight < dist[e.node_b_id],
    ensures
        ({
            let n = (c + e.weight) as i32;
            let dist2 = dist.insert(e.node_b_id, n);
            let frontier2 = frontier.push((n, e.node_b_id));
            &&& search_core(adj, start, goal, dist2, frontier2, settled)
            &&& forall|y: i32|
                #[trigger] dist2.contains_key(y) && !settled.contains(y) && y != e.node_a_id
                    ==> in_frontier(frontier2, dist2[y], y)
            &&& forall|x: Edge| relaxed(dist, c, x) ==> #[trigger] relaxed(dist2, c, x)
            &&& relaxed(dist2, c, e)
        }),
{
    let v = e.node_a_id;
    let b = e.node_b_id;
    let n = (c + e.weight) as i32;
    let dist2 = dist.insert(b, n);
    let frontier2 = frontier.push((n, b));
    lemma_edge_weight(adj, e);
    lemma_path_push(adj, via, start, e);
    if settled.contains(b) {
        assert(dist[b] <= path_cost(via.push(e)));
    }
    assert(b != v);
    assert(b != start);
    assert(reached_at(adj, start, b, n as int));
    assert forall|y: i32| #[trigger] dist2.contains_key(y) implies reached_at(
        adj,
        start,
        y,
        dist2[y] as int,
    ) by {
        if y != b {
            assert(dist.contains_key(y));
        }
    }
    assert forall|j: int|
        #![trigger frontier2[j]]
        0 <= j < frontier2.len() implies dist2.contains_key(frontier2[j].1) && dist2[frontier2[j].1]
        <= frontier2[j].0 by {
        if j < frontier.len() {
            assert(frontier2[j] == frontier[j]);
        }
    }
    assert forall|y: i32|
        #[trigger] dist2.contains_key(y) && !settled.contains(y) && y != v implies in_frontier(
        frontier2,
        dist2[y],
        y,
    ) by {
        if y == b {
            assert(frontier2[frontier.len() as int] == (n, b));
        } else {
            let j = choose|j: int| 0 <= j < frontier.len() && frontier[j] == (dist[y], y);
            assert(frontier2[j] == (dist2[y], y));
        }
    }
    assert forall|u: i32, i: int|
        #![trigger settled.contains(u), adj[u]@[i]]
        settled.contains(u) && adj.contains_key(u) && 0 <= i < adj[u]@.len() implies relaxed(
        dist2,
        dist2[u],
        adj[u]@[i],
    ) by {
        assert(relaxed(dist, dist[u], adj[u]@[i]));
    }
}

/// Once the frontier is empty no path below the sentinel reaches the goal.
pub proof fn lemma_exhausted(
    adj: Map<i32, Vec<Edge>>,
    start: i32,
    goal: i32,
    dist: Map<i32, i32>,
    frontier: Seq<(i32, i32)>,
    settled: Set<i32>,
)
    requires
        undirected(adj),
        search_state(adj, start, goal, dist, frontier, settled),
        frontier.len() == 0,
    ensures
        distance(adj, start, goal) == UNREACHABLE,
{
    assert forall|p: Seq<Edge>| is_path(adj, p, start, goal) implies path_cost(p)
        >= UNREACHABLE by {
        if path_cost(p) < UNREACHABLE {
            lemma_frontier_bounds_paths(adj, start, goal, dist, frontier, settled, p, goal);
        }
    }
    lemma_distance_unreachable(adj, start, goal);
}

/// Taking out the entry at `m` keeps every other node's entry in the frontier.
pub proof fn lemma_take_entry(
    frontier: Seq<(i32, i32)>,
    rest: Seq<(i32, i32)>,
    m: int,
    c: i32,
    y: i32,
)
    requires
        0 <= m < frontier.len(),
        rest == frontier.update(m, frontier.last()).drop_last(),
        in_frontier(frontier, c, y),
        frontier[m].1 != y,
    ensures
        in_frontier(rest, c, y),
{
    let j = choose|j: int| 0 <= j < frontier.len() && frontier[j] == (c, y);
    if j == frontier.len() - 1 {
        assert(rest[m] == (c, y));
    } else {
        assert(rest[j] == (c, y));
    }
}

} // verus!
