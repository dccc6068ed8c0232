//! The mathematical model of a road network: paths, their costs and the
//! shortest distance between two nodes, with the laws that distance obeys.

use vstd::prelude::*;

verus! {

/// The sentinel distance: no route exists, or none costs less than this.
pub const UNREACHABLE: i32 = 2147483647;

/// A weighted connection from `node_a_id` to `node_b_id`.
#[derive(Clone, Copy, Debug, PartialEq, Eq, Structural)]
pub struct Edge {
    pub node_a_id: i32,
    pub node_b_id: i32,
    pub weight: i32,
}

/// The same connection, walked the other way.
pub open spec fn flip(e: Edge) -> Edge {
    Edge { node_a_id: e.node_b_id, node_b_id: e.node_a_id, weight: e.weight }
}

/// `e` is one of the edges listed in the adjacency of its start node.
pub open spec fn is_edge(adj: Map<i32, Vec<Edge>>, e: Edge) -> bool {
    adj.contains_key(e.node_a_id) && adj[e.node_a_id]@.contains(e)
}

/// An adjacency map as the graph keeps it: each list holds edges that start at
/// its key and weigh at least zero, and each edge is listed the other way too.
pub open spec fn undirected(adj: Map<i32, Vec<Edge>>) -> bool {
    &&& forall|k: i32, i: int|
        #![trigger adj[k]@[i]]
        adj.contains_key(k) && 0 <= i < adj[k]@.len() ==> {
            &&& adj[k]@[i].node_a_id == k
            &&& adj[k]@[i].weight >= 0
            &&& is_edge(adj, flip(adj[k]@[i]))
        }
}

/// `p` is a sequence of edges of `adj` that leads from `a` to `b`.
pub open spec fn is_path(adj: Map<i32, Vec<Edge>>, p: Seq<Edge>, a: i32, b: i32) -> bool
    decreases p.len(),
{
    if p.len() == 0 {
        a == b
    } else {
        &&& is_edge(adj, p.last())
        &&& p.last().node_b_id == b
        &&& is_path(adj, p.drop_last(), a, p.last().node_a_id)
    }
}

/// The total weight of the edges of `p`.
pub open spec fn path_cost(p: Seq<Edge>) -> int
    decreases p.len(),
{
    if p.len() == 0 {
        0
    } else {
        path_cost(p.drop_last()) + p.last().weight
    }
}

/// Some path from `a` to `b` costs `d`, and none costs less.
pub open spec fn is_shortest(adj: Map<i32, Vec<Edge>>, a: i32, b: i32, d: int) -> bool {
    &&& exists|p: Seq<Edge>| is_path(adj, p, a, b) && path_cost(p) == d
    &&& forall|p: Seq<Edge>| is_path(adj, p, a, b) ==> d <= path_cost(p)
}

/// The least cost of a path from `a` to `b`, or `UNREACHABLE` where no path
/// costs less than the sentinel.
pub open spec fn distance(adj: Map<i32, Vec<Edge>>, a: i32, b: i32) -> int {
    if exists|d: int| d < UNREACHABLE && is_shortest(adj, a, b, d) {
        choose|d: int| d < UNREACHABLE && is_shortest(adj, a, b, d)
    } else {
        UNREACHABLE as int
    }
}

/// Extending a path by an edge that leaves its end gives a path to the edge's
/// end, dearer by the edge's weight.
pub proof fn lemma_path_push(adj: Map<i32, Vec<Edge>>, p: Seq<Edge>, a: i32, e: Edge)
    requires
        is_path(adj, p, a, e.node_a_id),
        is_edge(adj, e),
    ensures
        is_path(adj, p.push(e), a, e.node_b_id),
        path_cost(p.push(e)) == path_cost(p) + e.weight,
{
    assert(p.push(e).drop_last() =~= p);
}

/// An edge of an undirected adjacency map weighs at least zero.
pub proof fn lemma_edge_weight(adj: Map<i32, Vec<Edge>>, e: Edge)
    requires
        undirected(adj),
        is_edge(adj, e),
    ensures
        e.weight >= 0,
{
    let i = choose|i: int| 0 <= i < adj[e.node_a_id]@.len() && adj[e.node_a_id]@[i] == e;
    assert(adj[e.node_a_id]@[i].weight >= 0);
}

/// No path of an undirected adjacency map costs less than zero.
pub proof fn lemma_cost_nonneg(adj: Map<i32, Vec<Edge>>, p: Seq<Edge>, a: i32, b: i32)
    requires
        undirected(adj),
        is_path(adj, p, a, b),
    ensures
        path_cost(p) >= 0,
    decreases p.len(),
{
    if p.len() > 0 {
        lemma_edge_weight(adj, p.last());
        lemma_cost_nonneg(adj, p.drop_last(), a, p.last().node_a_id);
    }
}

/// A cost below the sentinel that some path has and none undercuts is the
/// distance.
pub proof fn lemma_distance_is(adj: Map<i32, Vec<Edge>>, a: i32, b: i32, d: int)
    requires
        d < UNREACHABLE,
        is_shortest(adj, a, b, d),
    ensures
        distance(adj, a, b) == d,
{
    let d2 = choose|d2: int| d2 < UNREACHABLE && is_shortest(adj, a, b, d2);
    let p = choose|p: Seq<Edge>| is_path(adj, p, a, b) && path_cost(p) == d;
    let p2 = choose|p2: Seq<Edge>| is_path(adj, p2, a, b) && path_cost(p2) == d2;
    assert(d <= path_cost(p2));
    assert(d2 <= path_cost(p));
}

/// Where every path costs at least the sentinel, the distance is the sentinel.
pub proof fn lemma_distance_unreachable(adj: Map<i32, Vec<Edge>>, a: i32, b: i32)
    requires
        forall|p: Seq<Edge>| is_path(adj, p, a, b) ==> path_cost(p) >= UNREACHABLE,
    ensures
        distance(adj, a, b) == UNREACHABLE,
{
    if exists|d: int| d < UNREACHABLE && is_shortest(adj, a, b, d) {
        let d = choose|d: int| d < UNREACHABLE && is_shortest(adj, a, b, d);
        let p = choose|p: Seq<Edge>| is_path(adj, p, a, b) && path_cost(p) == d;
        assert(path_cost(p) >= UNREACHABLE);
    }
}

/// The same path walked backwards, each edge reversed.
pub open spec fn reverse_path(p: Seq<Edge>) -> Seq<Edge>
    decreases p.len(),
{
    if p.len() == 0 {
        Seq::empty()
    } else {
        seq![flip(p.last())] + reverse_path(p.drop_last())
    }
}

/// An edge into the start of a path extends it at the front.
pub proof fn lemma_path_prepend(adj: Map<i32, Vec<Edge>>, e: Edge, p: Seq<Edge>, b: i32)
    requires
        is_edge(adj, e),
        is_path(adj, p, e.node_b_id, b),
    ensures
        is_path(adj, seq![e] + p, e.node_a_id, b),
        path_cost(seq![e] + p) == e.weight + path_cost(p),
    decreases p.len(),
{
    let q = seq![e] + p;
    if p.len() == 0 {
        assert(q.drop_last() =~= Seq::<Edge>::empty());
        assert(is_path(adj, q.drop_last(), e.node_a_id, e.node_a_id));
        assert(path_cost(q.drop_last()) == 0);
        assert(q.last() == e);
    } else {
        assert(is_path(adj, p.drop_last(), e.node_b_id, p.last().node_a_id));
        lemma_path_prepend(adj, e, p.drop_last(), p.last().node_a_id);
        assert(q.drop_last() =~= seq![e] + p.drop_last());
        assert(q.last() == p.last());
    }
}

/// A path walked backwards over an undirected adjacency map is a path back,
/// of the same cost.
pub proof fn lemma_path_reverse(adj: Map<i32, Vec<Edge>>, p: Seq<Edge>, a: i32, b: i32)
    requires
        undirected(adj),
        is_path(adj, p, a, b),
    ensures
        is_path(adj, reverse_path(p), b, a),
        path_cost(reverse_path(p)) == path_cost(p),
    decreases p.len(),
{
    if p.len() > 0 {
        let e = p.last();
        let q = p.drop_last();
        lemma_path_reverse(adj, q, a, e.node_a_id);
        let i = choose|i: int| 0 <= i < adj[e.node_a_id]@.len() && adj[e.node_a_id]@[i] == e;
        assert(is_edge(adj, flip(adj[e.node_a_id]@[i])));
        lemma_path_prepend(adj, flip(e), reverse_path(q), a);
    }
}

/// Two paths joined end to start make a path whose cost is their sum.
pub proof fn lemma_path_concat(
    adj: Map<i32, Vec<Edge>>,
    p: Seq<Edge>,
    q: Seq<Edge>,
    a: i32,
    b: i32,
    c: i32,
)
    requires
        is_path(adj, p, a, b),
        is_path(adj, q, b, c),
    ensures
        is_path(adj, p + q, a, c),
        path_cost(p + q) == path_cost(p) + path_cost(q),
    decreases q.len(),
{
    if q.len() == 0 {
        assert(p + q =~= p);
    } else {
        lemma_path_concat(adj, p, q.drop_last(), a, b, q.last().node_a_id);
        assert((p + q).drop_last() =~= p + q.drop_last());
        assert((p + q).last() == q.last());
    }
}

/// Where some path costs at most `n`, a least cost exists, and it is at most `n`.
pub proof fn lemma_least_cost_exists(adj: Map<i32, Vec<Edge>>, a: i32, b: i32, n: nat)
    requires
        undirected(adj),
        exists|p: Seq<Edge>| is_path(adj, p, a, b) && path_cost(p) <= n,
    ensures
        exists|d: int| d <= n && is_shortest(adj, a, b, d),
    decreases n,
{
    if n > 0 && exists|p: Seq<Edge>| is_path(adj, p, a, b) && path_cost(p) <= n - 1 {
        lemma_least_cost_exists(adj, a, b, (n - 1) as nat);
    } else {
        let p = choose|p: Seq<Edge>| is_path(adj, p, a, b) && path_cost(p) <= n;
        lemma_cost_nonneg(adj, p, a, b);
        assert forall|q: Seq<Edge>| is_path(adj, q, a, b) implies n <= path_cost(q) by {
            lemma_cost_nonneg(adj, q, a, b);
        }
        assert(is_shortest(adj, a, b, n as int));
    }
}

/// The distance is at most the cost of any path, and lies between zero and
/// the sentinel.
pub proof fn lemma_distance_bounds(adj: Map<i32, Vec<Edge>>, a: i32, b: i32)
    requires
        undirected(adj),
    ensures
        0 <= distance(adj, a, b) <= UNREACHABLE,
        forall|p: Seq<Edge>| #[trigger] is_path(adj, p, a, b) ==> distance(adj, a, b) <= path_cost(p),
        distance(adj, a, b) < UNREACHABLE ==> is_shortest(adj, a, b, distance(adj, a, b)),
{
    if exists|d: int| d < UNREACHABLE && is_shortest(adj, a, b, d) {
        let d = distance(adj, a, b);
        let p = choose|p: Seq<Edge>| is_path(adj, p, a, b) && path_cost(p) == d;
        lemma_cost_nonneg(adj, p, a, b);
    }
    assert forall|p: Seq<Edge>| #[trigger] is_path(adj, p, a, b) implies distance(adj, a, b)
        <= path_cost(p) by {
        if path_cost(p) < UNREACHABLE {
            lemma_cost_nonneg(adj, p, a, b);
            lemma_least_cost_exists(adj, a, b, path_cost(p) as nat);
            let d = choose|d: int| d <= path_cost(p) && is_shortest(adj, a, b, d);
            lemma_distance_is(adj, a, b, d);
        }
    }
}

/// The distance from a node to itself is zero.
pub proof fn lemma_distance_to_self(adj: Map<i32, Vec<Edge>>, n: i32)
    requires
        undirected(adj),
    ensures
        distance(adj, n, n) == 0,
{
    let empty = Seq::<Edge>::empty();
    assert(is_path(adj, empty, n, n) && path_cost(empty) == 0);
    lemma_distance_bounds(adj, n, n);
}

/// Over undirected edges, the distance from `a` to `b` is the distance from
/// `b` to `a`.
pub proof fn lemma_distance_symmetric(adj: Map<i32, Vec<Edge>>, a: i32, b: i32)
    requires
        undirected(adj),
    ensures
        distance(adj, a, b) == distance(adj, b, a),
{
    lemma_distance_bounds(adj, a, b);
    lemma_distance_bounds(adj, b, a);
    if distance(adj, a, b) < UNREACHABLE {
        let p = choose|p: Seq<Edge>| is_path(adj, p, a, b) && path_cost(p) == distance(adj, a, b);
        lemma_path_reverse(adj, p, a, b);
    }
    if distance(adj, b, a) < UNREACHABLE {
        let p = choose|p: Seq<Edge>| is_path(adj, p, b, a) && path_cost(p) == distance(adj, b, a);
        lemma_path_reverse(adj, p, b, a);
    }
}

/// Going from `a` to `c` costs no more than going by way of `b`.
pub proof fn lemma_distance_triangle(adj: Map<i32, Vec<Edge>>, a: i32, b: i32, c: i32)
    requires
        undirected(adj),
    ensures
        distance(adj, a, c) <= distance(adj, a, b) + distance(adj, b, c),
{
    lemma_distance_bounds(adj, a, b);
    lemma_distance_bounds(adj, b, c);
    lemma_distance_bounds(adj, a, c);
    if distance(adj, a, b) < UNREACHABLE && distance(adj, b, c) < UNREACHABLE {
        let p = choose|p: Seq<Edge>| is_path(adj, p, a, b) && path_cost(p) == distance(adj, a, b);
        let q = choose|q: Seq<Edge>| is_path(adj, q, b, c) && path_cost(q) == distance(adj, b, c);
        lemma_path_concat(adj, p, q, a, b, c);
    }
}

/// Where no path leads from `a` to `b`, the distance is the sentinel.
pub proof fn lemma_no_path_unreachable(adj: Map<i32, Vec<Edge>>, a: i32, b: i32)
    requires
        forall|p: Seq<Edge>| !is_path(adj, p, a, b),
    ensures
        distance(adj, a, b) == UNREACHABLE,
{
    lemma_distance_unreachable(adj, a, b);
}

/// The edges listed at `k`; none where `k` has no list.
pub open spec fn edges_from(adj: Map<i32, Vec<Edge>>, k: i32) -> Seq<Edge> {
    if adj.contains_key(k) {
        adj[k]@
    } else {
        Seq::empty()
    }
}

/// The list `prev` of node `k` once `e` is added at its start and its reverse
/// at its end.
pub open spec fn extend_list(prev: Seq<Edge>, e: Edge, k: i32) -> Seq<Edge> {
    let s = if k == e.node_a_id {
        prev.push(e)
    } else {
        prev
    };
    if k == e.node_b_id {
        s.push(flip(e))
    } else {
        s
    }
}

/// The list at `k` of `adj` once `e` is added.
pub open spec fn edges_after_insert(adj: Map<i32, Vec<Edge>>, e: Edge, k: i32) -> Seq<Edge> {
    extend_list(edges_from(adj, k), e, k)
}

/// The list at `k` of a graph built by adding the edges of `s` in order.
pub open spec fn edges_built(s: Seq<Edge>, k: i32) -> Seq<Edge>
    decreases s.len(),
{
    if s.len() == 0 {
        Seq::empty()
    } else {
        extend_list(edges_built(s.drop_last(), k), s.last(), k)
    }
}

/// Adding an edge of non-negative weight together with its reverse keeps an
/// adjacency map undirected.
pub proof fn lemma_insert_keeps_undirected(
    adj: Map<i32, Vec<Edge>>,
    adj2: Map<i32, Vec<Edge>>,
    e: Edge,
)
    requires
        undirected(adj),
        e.weight >= 0,
        forall|k: i32|
            adj2.contains_key(k) <==> (adj.contains_key(k) || k == e.node_a_id || k
                == e.node_b_id),
        forall|k: i32| adj2.contains_key(k) ==> #[trigger] adj2[k]@ == edges_after_insert(adj, e, k),
    ensures
        undirected(adj2),
{
    let a = e.node_a_id;
    let b = e.node_b_id;
    assert forall|k: i32, i: int| adj2.contains_key(k) && 0 <= i < adj2[k]@.len() implies {
        &&& #[trigger] adj2[k]@[i].node_a_id == k
        &&& adj2[k]@[i].weight >= 0
        &&& is_edge(adj2, flip(adj2[k]@[i]))
    } by {
        let x = adj2[k]@[i];
        let n = edges_from(adj, k).len();
        assert(adj2[k]@ == edges_after_insert(adj, e, k));
        if i < n {
            assert(x == adj[k]@[i]);
            assert(is_edge(adj, flip(x)));
            let j = choose|j: int| 0 <= j < adj[x.node_b_id]@.len() && adj[x.node_b_id]@[j] == flip(x);
            assert(adj2[x.node_b_id]@ == edges_after_insert(adj, e, x.node_b_id));
            assert(adj2[x.node_b_id]@[j] == flip(x));
        } else if k == a && i == n {
            assert(x == e);
            let s = edges_after_insert(adj, e, b);
            assert(adj2[b]@ == s);
            assert(s[s.len() - 1] == flip(e));
        } else {
            assert(k == b && x == flip(e));
            assert(flip(x) == e);
            let s = edges_after_insert(adj, e, a);
            assert(adj2[a]@ == s);
            assert(s[edges_from(adj, a).len() as int] == e);
        }
    }
}

} // verus!
