//! The graph store, the shortest-path search and the distance memo.

use std::collections::{HashMap, HashSet};
use vstd::prelude::*;
use crate::route::{
    Edge, UNREACHABLE, distance, edges_after_insert, edges_built, edges_from, flip, is_edge, is_path,
    lemma_distance_is, lemma_edge_weight, lemma_insert_keeps_undirected, lemma_no_path_unreachable,
    path_cost, undirected,
};
use crate::search::{
    entry_le, in_frontier, lemma_exhausted, lemma_least_entry_final, lemma_relax,
    lemma_settle_count, lemma_take_entry, reached_at, relaxed, search_core, search_state,
};

verus! {

broadcast use vstd::std_specs::hash::group_hash_axioms;

/// A location of the road network; its coordinates serve display only.
#[derive(Clone, Copy, Debug, PartialEq, Eq, Structural)]
pub struct Node {
    pub id: i32,
    pub x: i32,
    pub y: i32,
}

/// Why a graph could not be built.
#[derive(Clone, Copy, Debug, PartialEq, Eq, Structural)]
pub enum LoadError {
    /// The edge at this index weighs less than zero.
    NegativeWeight(usize),
}

/// The nodes of `s` by id; of two with one id the later one stays.
pub open spec fn nodes_by_id(s: Seq<Node>) -> Map<i32, Node>
    decreases s.len(),
{
    if s.len() == 0 {
        Map::empty()
    } else {
        nodes_by_id(s.drop_last()).insert(s.last().id, s.last())
    }
}

/// The road network and the memo of distances already computed on it.
#[derive(Debug)]
pub struct Graph {
    nodes: HashMap<i32, Node>,
    edges: HashMap<i32, Vec<Edge>>,
    cache: HashMap<i32, HashMap<i32, i32>>,
}

impl Graph {
    /// The nodes, by id.
    pub closed spec fn node_map(&self) -> Map<i32, Node> {
        self.nodes@
    }

    /// The adjacency lists, by the id of the node they start at.
    pub closed spec fn adjacency(&self) -> Map<i32, Vec<Edge>> {
        self.edges@
    }

    /// Each memoised distance is the distance on the current edges.
    pub closed spec fn cache_agrees(&self) -> bool {
        forall|a: i32, b: i32|
            #![trigger self.cache@[a]@[b]]
            self.cache@.contains_key(a) && self.cache@[a]@.contains_key(b)
                ==> self.cache@[a]@[b] as int == distance(self.edges@, a, b)
    }

    /// A distance from `a` to `b` is memoised.
    pub closed spec fn is_memoised(&self, a: i32, b: i32) -> bool {
        self.cache@.contains_key(a) && self.cache@[a]@.contains_key(b)
    }

    /// The memoised distance from `a` to `b`.
    pub closed spec fn memoised(&self, a: i32, b: i32) -> int {
        self.cache@[a]@[b] as int
    }

    /// The graph's invariant: its edges are undirected and of non-negative
    /// weight, and its memo agrees with them.
    pub closed spec fn wf(&self) -> bool {
        &&& undirected(self.edges@)
        &&& self.cache_agrees()
    }

    /// A graph with no nodes, no edges and an empty memo.
    pub fn new() -> (g: Graph)
        ensures
            g.wf(),
            g.node_map() == Map::<i32, Node>::empty(),
            g.adjacency() == Map::<i32, Vec<Edge>>::empty(),
            forall|a: i32, b: i32| !#[trigger] g.is_memoised(a, b),
    {
        Graph { nodes: HashMap::new(), edges: HashMap::new(), cache: HashMap::new() }
    }

    /// Inserts `node` at its id; a node already there is replaced.
    pub fn add_node(&mut self, node: Node)
        requires
            old(self).wf(),
        ensures
            final(self).wf(),
            final(self).node_map() == old(self).node_map().insert(node.id, node),
            final(self).adjacency() == old(self).adjacency(),
            forall|a: i32, b: i32|
                #[trigger] final(self).is_memoised(a, b) == old(self).is_memoised(a, b) && (old(
                    self,
                ).is_memoised(a, b) ==> final(self).memoised(a, b) == old(self).memoised(a, b)),
    {
        self.nodes.insert(node.id, node);
    }

    /// Adds `edge` to the list of its start node and the reverse edge to the
    /// list of its end node. The memo is emptied: the distances it held were
    /// measured without the new edge.
    pub fn add_edge(&mut self, edge: Edge)
        requires
            old(self).wf(),
            edge.weight >= 0,
        ensures
            final(self).wf(),
            final(self).node_map() == old(self).node_map(),
            forall|a: i32, b: i32| !#[trigger] final(self).is_memoised(a, b),
            forall|k: i32|
                final(self).adjacency().contains_key(k) <==> (old(self).adjacency().contains_key(k)
                    || k == edge.node_a_id || k == edge.node_b_id),
            forall|k: i32|
                final(self).adjacency().contains_key(k) ==> #[trigger] final(self).adjacency()[k]@
                    == edges_after_insert(old(self).adjacency(), edge, k),
            forall|k: i32|
                #[trigger] edges_from(final(self).adjacency(), k) == edges_after_insert(
                    old(self).adjacency(),
                    edge,
                    k,
                ),
    {
        let ghost adj0 = self.edges@;
        let a = edge.node_a_id;
        let b = edge.node_b_id;
        let mut from_a = match self.edges.remove(&a) {
            Some(list) => list,
            None => Vec::new(),
        };
        from_a.push(edge);
        self.edges.insert(a, from_a);
        let reverse = Edge { node_a_id: b, node_b_id: a, weight: edge.weight };
        let mut from_b = match self.edges.remove(&b) {
            Some(list) => list,
            None => Vec::new(),
        };
        from_b.push(reverse);
        self.edges.insert(b, from_b);
        self.cache.clear();
        proof {
            assert forall|k: i32| self.edges@.contains_key(k) implies #[trigger] self.edges@[k]@
                == edges_after_insert(adj0, edge, k) by {
                if k != a && k != b {
                    assert(self.edges@[k] == adj0[k]);
                }
            }
            lemma_insert_keeps_undirected(adj0, self.edges@, edge);
            assert forall|k: i32| #[trigger] edges_from(self.edges@, k) == edges_after_insert(
                adj0,
                edge,
                k,
            ) by {
                if self.edges@.contains_key(k) {
                    assert(self.edges@[k]@ == edges_after_insert(adj0, edge, k));
                }
            }
            assert(self.cache_agrees());
        }
    }

    /// Builds a graph of `nodes` and `edges`, added in order. An edge of
    /// negative weight is refused, before anything is built: the search is
    /// exact only over weights of at least zero.
    pub fn load(nodes: &Vec<Node>, edges: &Vec<Edge>) -> (r: Result<Graph, LoadError>)
        ensures
            match r {
                Ok(g) => {
                    &&& g.wf()
                    &&& g.node_map() == nodes_by_id(nodes@)
                    &&& forall|k: i32| #[trigger] edges_from(g.adjacency(), k) == edges_built(edges@, k)
                    &&& forall|i: int| 0 <= i < edges.len() ==> #[trigger] edges@[i].weight >= 0
                },
                Err(LoadError::NegativeWeight(i)) => {
                    &&& i < edges.len()
                    &&& edges@[i as int].weight < 0
                    &&& forall|j: int| 0 <= j < i ==> #[trigger] edges@[j].weight >= 0
                },
            },
    {
        let mut i: usize = 0;
        while i < edges.len()
            invariant
                0 <= i <= edges.len(),
                forall|j: int| 0 <= j < i ==> #[trigger] edges@[j].weight >= 0,
            decreases edges.len() - i,
        {
            if edges[i].weight < 0 {
                return Err(LoadError::NegativeWeight(i));
            }
            i += 1;
        }
        let mut g = Graph::new();
        let mut n: usize = 0;
        while n < nodes.len()
            invariant
                0 <= n <= nodes.len(),
                g.wf(),
                g.node_map() == nodes_by_id(nodes@.take(n as int)),
                g.adjacency() == Map::<i32, Vec<Edge>>::empty(),
            decreases nodes.len() - n,
        {
            g.add_node(nodes[n]);
            proof {
                assert(nodes@.take(n + 1).drop_last() =~= nodes@.take(n as int));
            }
            n += 1;
        }
        proof {
            assert(nodes@.take(nodes.len() as int) =~= nodes@);
            assert forall|k: i32| #[trigger] edges_from(g.adjacency(), k) == edges_built(
                edges@.take(0),
                k,
            ) by {}
        }
        let mut e: usize = 0;
        while e < edges.len()
            invariant
                0 <= e <= edges.len(),
                forall|j: int| 0 <= j < edges.len() ==> #[trigger] edges@[j].weight >= 0,
                g.wf(),
                g.node_map() == nodes_by_id(nodes@),
                forall|k: i32| #[trigger] edges_from(g.adjacency(), k) == edges_built(edges@.take(e as int), k),
            decreases edges.len() - e,
        {
            let ghost before = g.adjacency();
            g.add_edge(edges[e]);
            proof {
                assert(edges@.take(e + 1).drop_last() =~= edges@.take(e as int));
                assert forall|k: i32| #[trigger] edges_from(g.adjacency(), k) == edges_built(
                    edges@.take(e + 1),
                    k,
                ) by {
                    assert(edges_from(before, k) == edges_built(edges@.take(e as int), k));
                }
            }
            e += 1;
        }
        proof {
            assert(edges@.take(edges.len() as int) =~= edges@);
        }
        Ok(g)
    }

    /// The edges that leave `id`, in the order they were added; none for an
    /// unknown id.
    pub fn neighbors(&self, id: i32) -> (r: Vec<Edge>)
        ensures
            r@ == edges_from(self.adjacency(), id),
    {
        match self.edges.get(&id) {
            Some(list) => list.clone(),
            None => Vec::new(),
        }
    }

    /// The node stored at `id`, if any.
    pub fn node(&self, id: i32) -> (r: Option<Node>)
        ensures
            r == (if self.node_map().contains_key(id) {
                Some(self.node_map()[id])
            } else {
                None
            }),
    {
        match self.nodes.get(&id) {
            Some(node) => Some(*node),
            None => None,
        }
    }

    /// The edges of a well-formed graph are undirected, so the laws of
    /// `distance` hold of the distances it answers.
    pub proof fn lemma_undirected(&self)
        requires
            self.wf(),
        ensures
            undirected(self.adjacency()),
    {
    }

    /// A memoised distance is the one a fresh search gives on the current
    /// edges: a hit never differs from a computation.
    pub proof fn lemma_memo_transparent(&self, a: i32, b: i32)
        requires
            self.wf(),
            self.is_memoised(a, b),
        ensures
            self.memoised(a, b) == distance(self.adjacency(), a, b),
    {
    }

    /// From any node, a node that no edge touches is unreachable: an id that
    /// was never loaded gets the sentinel.
    pub proof fn lemma_untouched_node_unreachable(&self, a: i32, b: i32)
        requires
            self.wf(),
            a != b,
            !self.adjacency().contains_key(b),
        ensures
            distance(self.adjacency(), a, b) == UNREACHABLE,
    {
        let adj = self.edges@;
        assert forall|p: Seq<Edge>| !is_path(adj, p, a, b) by {
            if is_path(adj, p, a, b) {
                let e = p.last();
                let i = choose|i: int| 0 <= i < adj[e.node_a_id]@.len() && adj[e.node_a_id]@[i] == e;
                assert(is_edge(adj, flip(adj[e.node_a_id]@[i])));
            }
        }
        lemma_no_path_unreachable(adj, a, b);
    }

    /// The distance from `from_node_id` to `to_node_id`: the least total weight
    /// of a path between them, or `UNREACHABLE` where no path costs less. A
    /// memoised distance is returned as it is; any other is computed and then
    /// memoised under the ordered pair, and no other entry of the memo changes.
    /// An id that no edge touches is reached from no other id, so a query with
    /// an unknown id gets `UNREACHABLE`, unless both ids are the same: every id
    /// is at distance 0 from itself.
    pub fn shortest_path(&mut self, from_node_id: i32, to_node_id: i32) -> (r: i32)
        requires
            old(self).wf(),
        ensures
            final(self).wf(),
            r as int == distance(old(self).adjacency(), from_node_id, to_node_id),
            final(self).adjacency() == old(self).adjacency(),
            final(self).node_map() == old(self).node_map(),
            final(self).is_memoised(from_node_id, to_node_id),
            final(self).memoised(from_node_id, to_node_id) == r,
            forall|a: i32, b: i32|
                (a != from_node_id || b != to_node_id) ==> (#[trigger] final(self).is_memoised(a, b)
                    == old(self).is_memoised(a, b) && (old(self).is_memoised(a, b)
                    ==> final(self).memoised(a, b) == old(self).memoised(a, b))),
    {
        match self.cache.get(&from_node_id) {
            Some(row) => match row.get(&to_node_id) {
                Some(known) => {
                    return *known;
                },
                None => {},
            },
            None => {},
        }
        let found = self.dijkstra(from_node_id, to_node_id);
        let mut row = match self.cache.remove(&from_node_id) {
            Some(row) => row,
            None => HashMap::new(),
        };
        row.insert(to_node_id, found);
        self.cache.insert(from_node_id, row);
        proof {
            assert forall|a: i32, b: i32|
                #![trigger self.cache@[a]@[b]]
                self.cache@.contains_key(a) && self.cache@[a]@.contains_key(b) implies self.cache@[a]@[b] as int
                == distance(self.edges@, a, b) by {
                if a == from_node_id && b != to_node_id {
                    assert(self.cache@[a]@[b] == old(self).cache@[a]@[b]);
                }
            }
        }
        found
    }

    /// Dijkstra's search from `start`, which stops as soon as `goal` leaves the
    /// frontier. Entries leave the frontier by least cost, ties by least node id;
    /// an entry for a node already settled is passed over.
    fn dijkstra(&self, start: i32, goal: i32) -> (r: i32)
        requires
            self.wf(),
        ensures
            r as int == distance(self.edges@, start, goal),
    {
        let ghost adj = self.edges@;
        let mut distances: HashMap<i32, i32> = HashMap::new();
        let mut frontier: Vec<(i32, i32)> = Vec::new();
        let mut visited: HashSet<i32> = HashSet::new();
        distances.insert(start, 0);
        frontier.push((0, start));
        proof {
            let empty = Seq::<Edge>::empty();
            assert(is_path(adj, empty, start, start) && path_cost(empty) == 0);
            assert(reached_at(adj, start, start, 0));
            assert(frontier@[0] == (0i32, start));
            assert(in_frontier(frontier@, 0, start));
        }
        while frontier.len() > 0
            invariant
                undirected(adj),
                adj == self.edges@,
                search_state(adj, start, goal, distances@, frontier@, visited@),
            decreases adj.dom().difference(visited@).len(), frontier.len(),
        {
            let m = least_entry(&frontier);
            let ghost before = frontier@;
            let (cost, position) = frontier.swap_remove(m);
            if position == goal {
                proof {
                    lemma_least_entry_final(adj, start, goal, distances@, before, visited@, m as int);
                    lemma_distance_is(adj, start, goal, cost as int);
                }
                return cost;
            }
            if visited.contains(&position) {
                proof {
                    assert forall|y: i32|
                        #[trigger] distances@.contains_key(y) && !visited@.contains(y) implies in_frontier(
                        frontier@,
                        distances@[y],
                        y,
                    ) by {
                        lemma_take_entry(before, frontier@, m as int, distances@[y], y);
                    }
                }
                continue;
            }
            proof {
                lemma_least_entry_final(adj, start, goal, distances@, before, visited@, m as int);
                assert forall|y: i32|
                    #[trigger] distances@.contains_key(y) && !visited@.contains(y) && y
                        != position implies in_frontier(frontier@, distances@[y], y) by {
                    lemma_take_entry(before, frontier@, m as int, distances@[y], y);
                }
                lemma_settle_count(adj.dom(), visited@, position);
            }
            match self.edges.get(&position) {
                Some(list) => {
                    let ghost via = choose|p: Seq<Edge>|
                        is_path(adj, p, start, position) && path_cost(p) == cost;
                    let mut i: usize = 0;
                    while i < list.len()
                        invariant
                            undirected(adj),
                            adj == self.edges@,
                            adj.contains_key(position),
                            list@ == adj[position]@,
                            0 <= i <= list.len(),
                            distances@.contains_key(position),
                            distances@[position] == cost,
                            !visited@.contains(position),
                            position != goal,
                            is_path(adj, via, start, position),
                            path_cost(via) == cost,
                            forall|p: Seq<Edge>|
                                #[trigger] is_path(adj, p, start, position) ==> cost <= path_cost(p),
                            search_core(adj, start, goal, distances@, frontier@, visited@),
                            forall|y: i32|
                                #[trigger] distances@.contains_key(y) && !visited@.contains(y) && y
                                    != position ==> in_frontier(frontier@, distances@[y], y),
                            forall|k: int| 0 <= k < i ==> relaxed(distances@, cost, #[trigger] list@[k]),
                        decreases list.len() - i,
                    {
                        let edge = list[i];
                        let candidate: i64 = cost as i64 + edge.weight as i64;
                        proof {
                            assert(adj[position]@[i as int] == edge);
                            assert(is_edge(adj, edge));
                            lemma_edge_weight(adj, edge);
                        }
                        if candidate < UNREACHABLE as i64 {
                            let next = edge.node_b_id;
                            let improves = match distances.get(&next) {
                                Some(known) => candidate < *known as i64,
                                None => true,
                            };
                            if improves {
                                let ghost d0 = distances@;
                                let ghost f0 = frontier@;
                                distances.insert(next, candidate as i32);
                                frontier.push((candidate as i32, next));
                                proof {
                                    lemma_relax(adj, start, goal, d0, f0, visited@, via, edge, cost);
                                }
                            }
                        }
                        i += 1;
                    }
                }
                None => {}
            }
            visited.insert(position);
        }
        proof {
            lemma_exhausted(adj, start, goal, distances@, frontier@, visited@);
        }
        UNREACHABLE
    }
}

/// The index of the least entry of a non-empty frontier: the lowest cost, and
/// of equal costs the lowest node id.
fn least_entry(frontier: &Vec<(i32, i32)>) -> (m: usize)
    requires
        frontier.len() > 0,
    ensures
        m < frontier.len(),
        forall|j: int| 0 <= j < frontier.len() ==> entry_le(frontier@[m as int], #[trigger] frontier@[j]),
{
    let mut m: usize = 0;
    let mut i: usize = 1;
    while i < frontier.len()
        invariant
            0 < i <= frontier.len(),
            m < i,
            forall|j: int| 0 <= j < i ==> entry_le(frontier@[m as int], #[trigger] frontier@[j]),
        decreases frontier.len() - i,
    {
        let (c, y) = frontier[i];
        let (cm, ym) = frontier[m];
        if c < cm || (c == cm && y < ym) {
            m = i;
        }
        i += 1;
    }
    m
}

} // verus!
