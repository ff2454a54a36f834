use vstd::prelude::*;

use crate::edge::Edge;
use crate::node::Node;

verus! {

/// The neighbours of `n` along `edges`, in edge order: for each edge whose
/// `a` is `n`, its `b`; otherwise, for each edge whose `b` is `n`, its `a`.
/// An edge that connects the same pair twice contributes twice.
pub open spec fn neighbors_along(edges: Seq<Edge>, n: Node) -> Seq<Node>
    decreases edges.len(),
{
    if edges.len() == 0 {
        seq![]
    } else {
        let e = edges.last();
        let prev = neighbors_along(edges.drop_last(), n);
        if e.a == n {
            prev.push(e.b)
        } else if e.b == n {
            prev.push(e.a)
        } else {
            prev
        }
    }
}

/// The adjacency of `nodes` along `edges`, as entries in order: one entry
/// for each node with at least one neighbour, at that node's first
/// occurrence in `nodes`, listing its neighbours.
pub open spec fn adjacency(nodes: Seq<Node>, edges: Seq<Edge>) -> Seq<(Node, Seq<Node>)>
    decreases nodes.len(),
{
    if nodes.len() == 0 {
        seq![]
    } else {
        let prev = adjacency(nodes.drop_last(), edges);
        let n = nodes.last();
        let ns = neighbors_along(edges, n);
        if ns.len() > 0 && !nodes.drop_last().contains(n) {
            prev.push((n, ns))
        } else {
            prev
        }
    }
}

/// No two entries of `g` share a node.
pub open spec fn keys_distinct(g: Seq<(Node, Seq<Node>)>) -> bool {
    forall|i: int, j: int| 0 <= i < j < g.len() ==> g[i].0 != g[j].0
}

/// `g` holds an entry for `n`.
pub open spec fn has_key(g: Seq<(Node, Seq<Node>)>, n: Node) -> bool {
    exists|k: int| 0 <= k < g.len() && g[k].0 == n
}

/// The adjacency built by `create_graph`: an entry for each given node that
/// some edge touches, holding its neighbours. The entries are kept in the
/// order of first occurrence and no node has two.
#[derive(Debug, PartialEq, Eq)]
pub struct Graph {
    entries: Vec<(Node, Vec<Node>)>,
}

impl View for Graph {
    type V = Seq<(Node, Seq<Node>)>;

    closed spec fn view(&self) -> Seq<(Node, Seq<Node>)> {
        self.entries@.map_values(|e: (Node, Vec<Node>)| (e.0, e.1@))
    }
}

impl Graph {
    /// The number of nodes that have an entry.
    pub fn len(&self) -> (r: usize)
        ensures
            r == self@.len(),
    {
        self.entries.len()
    }

    /// The neighbours listed for `node`, found by value; `None` where `node`
    /// has no entry.
    pub fn get(&self, node: &Node) -> (r: Option<&Vec<Node>>)
        ensures
            r.is_some() == has_key(self@, *node),
            r matches Some(ns) ==> exists|k: int|
                0 <= k < self@.len() && self@[k] == (*node, ns@) && forall|j: int|
                    0 <= j < k ==> self@[j].0 != *node,
    {
        let mut i: usize = 0;
        while i < self.entries.len()
            invariant
                i <= self.entries.len(),
                forall|j: int| 0 <= j < i ==> self@[j].0 != *node,
            decreases self.entries.len() - i,
        {
            if self.entries[i].0 == *node {
                assert(self@[i as int] == (self.entries@[i as int].0, self.entries@[i as int].1@));
                return Some(&self.entries[i].1);
            }
            i += 1;
        }
        None
    }

    /// The nodes that have an entry, in entry order.
    pub fn keys(&self) -> (r: Vec<Node>)
        ensures
            r@ == self@.map_values(|e: (Node, Seq<Node>)| e.0),
    {
        let mut r: Vec<Node> = Vec::new();
        let mut i: usize = 0;
        while i < self.entries.len()
            invariant
                i <= self.entries.len(),
                r@ == self@.take(i as int).map_values(|e: (Node, Seq<Node>)| e.0),
            decreases self.entries.len() - i,
        {
            r.push(self.entries[i].0);
            assert(self@.take(i + 1).map_values(|e: (Node, Seq<Node>)| e.0) =~= self@.take(
                i as int,
            ).map_values(|e: (Node, Seq<Node>)| e.0).push(self.entries@[i as int].0));
            i += 1;
        }
        assert(self@.take(self@.len() as int) =~= self@);
        r
    }
}

/// An edge at `n` puts its other endpoint among the neighbours of `n`.
proof fn lemma_neighbors_contain(edges: Seq<Edge>, n: Node, i: int)
    requires
        0 <= i < edges.len(),
    ensures
        edges[i].a == n ==> neighbors_along(edges, n).contains(edges[i].b),
        edges[i].b == n ==> neighbors_along(edges, n).contains(edges[i].a),
    decreases edges.len(),
{
    let prev = neighbors_along(edges.drop_last(), n);
    if i < edges.len() - 1 {
        lemma_neighbors_contain(edges.drop_last(), n, i);
        if edges[i].a == n {
            let p = choose|p: int| 0 <= p < prev.len() && prev[p] == edges[i].b;
            assert(neighbors_along(edges, n)[p] == edges[i].b);
        }
        if edges[i].b == n {
            let p = choose|p: int| 0 <= p < prev.len() && prev[p] == edges[i].a;
            assert(neighbors_along(edges, n)[p] == edges[i].a);
        }
    } else {
        let nb = neighbors_along(edges, n);
        if edges[i].a == n || edges[i].b == n {
            assert(nb[nb.len() - 1] == nb.last());
        }
    }
}

/// A node that no edge touches has no neighbours.
proof fn lemma_neighbors_of_untouched(edges: Seq<Edge>, n: Node)
    requires
        forall|i: int| 0 <= i < edges.len() ==> edges[i].a != n && edges[i].b != n,
    ensures
        neighbors_along(edges, n).len() == 0,
    decreases edges.len(),
{
    if edges.len() > 0 {
        lemma_neighbors_of_untouched(edges.drop_last(), n);
    }
}

/// Two equal edges `(u, v)` list `v` twice among the neighbours of `u`.
proof fn lemma_neighbors_repeat(edges: Seq<Edge>, i: int, j: int)
    requires
        0 <= i < j < edges.len(),
        edges[i] == edges[j],
    ensures
        exists|p: int, q: int|
            0 <= p < q < neighbors_along(edges, edges[i].a).len() && neighbors_along(
                edges,
                edges[i].a,
            )[p] == edges[i].b && neighbors_along(edges, edges[i].a)[q] == edges[i].b,
    decreases edges.len(),
{
    let u = edges[i].a;
    let v = edges[i].b;
    let nb = neighbors_along(edges, u);
    let prev = neighbors_along(edges.drop_last(), u);
    if j < edges.len() - 1 {
        lemma_neighbors_repeat(edges.drop_last(), i, j);
        let (p, q) = choose|p: int, q: int| 0 <= p < q < prev.len() && prev[p] == v && prev[q] == v;
        assert(nb[p] == v && nb[q] == v);
    } else {
        lemma_neighbors_contain(edges.drop_last(), u, i);
        let p = choose|p: int| 0 <= p < prev.len() && prev[p] == v;
        assert(nb[p] == v);
        assert(nb[prev.len() as int] == v);
    }
}

/// What the entries of `adjacency` hold: each is a node of `nodes` with its
/// neighbours, none is empty, no node has two, and every node of `nodes`
/// with a neighbour has one.
proof fn lemma_adjacency_entries(nodes: Seq<Node>, edges: Seq<Edge>)
    ensures
        keys_distinct(adjacency(nodes, edges)),
        forall|k: int|
            0 <= k < adjacency(nodes, edges).len() ==> {
                &&& nodes.contains(#[trigger] adjacency(nodes, edges)[k].0)
                &&& adjacency(nodes, edges)[k].1 == neighbors_along(
                    edges,
                    adjacency(nodes, edges)[k].0,
                )
                &&& adjacency(nodes, edges)[k].1.len() > 0
            },
        forall|n: Node|
            nodes.contains(n) && neighbors_along(edges, n).len() > 0 ==> #[trigger] has_key(
                adjacency(nodes, edges),
                n,
            ),
    decreases nodes.len(),
{
    if nodes.len() > 0 {
        let init = nodes.drop_last();
        let prev = adjacency(init, edges);
        let g = adjacency(nodes, edges);
        let last = nodes.last();
        lemma_adjacency_entries(init, edges);
        assert forall|k: int| 0 <= k < g.len() implies nodes.contains(#[trigger] g[k].0) by {
            if k < prev.len() {
                let w = choose|w: int| 0 <= w < init.len() && init[w] == prev[k].0;
                assert(nodes[w] == g[k].0);
            } else {
                assert(nodes[nodes.len() - 1] == g[k].0);
            }
        }
        assert forall|n: Node| nodes.contains(n) && neighbors_along(edges, n).len() > 0 implies #[trigger] has_key(g, n) by {
            if init.contains(n) {
                assert(has_key(prev, n));
                let k = choose|k: int| 0 <= k < prev.len() && prev[k].0 == n;
                assert(g[k].0 == n);
            } else {
                let w = choose|w: int| 0 <= w < nodes.len() && nodes[w] == n;
                if w < init.len() {
                    assert(init[w] == n);
                }
                assert(g[g.len() - 1].0 == n);
            }
        }
        assert forall|k1: int, k2: int| 0 <= k1 < k2 < g.len() implies g[k1].0 != g[k2].0 by {
            if k2 == prev.len() {
                assert(init.contains(prev[k1].0));
            }
        }
    }
}

/// Every edge shows in the adjacency both ways: each endpoint that is among
/// `nodes` has an entry, and that entry lists the other endpoint.
pub proof fn law_edges_show_both_ways(nodes: Seq<Node>, edges: Seq<Edge>, i: int)
    requires
        0 <= i < edges.len(),
    ensures
        nodes.contains(edges[i].a) ==> exists|k: int|
            0 <= k < adjacency(nodes, edges).len() && adjacency(nodes, edges)[k].0 == edges[i].a
                && adjacency(nodes, edges)[k].1.contains(edges[i].b),
        nodes.contains(edges[i].b) ==> exists|k: int|
            0 <= k < adjacency(nodes, edges).len() && adjacency(nodes, edges)[k].0 == edges[i].b
                && adjacency(nodes, edges)[k].1.contains(edges[i].a),
{
    let g = adjacency(nodes, edges);
    let (u, v) = (edges[i].a, edges[i].b);
    lemma_adjacency_entries(nodes, edges);
    lemma_neighbors_contain(edges, u, i);
    lemma_neighbors_contain(edges, v, i);
    if nodes.contains(u) {
        assert(has_key(g, u));
        let k = choose|k: int| 0 <= k < g.len() && g[k].0 == u;
        assert(g[k].1 == neighbors_along(edges, u));
    }
    if nodes.contains(v) {
        assert(has_key(g, v));
        let k = choose|k: int| 0 <= k < g.len() && g[k].0 == v;
        assert(g[k].1 == neighbors_along(edges, v));
    }
}

/// A node that no edge touches has no entry in the adjacency.
pub proof fn law_untouched_node_has_no_entry(nodes: Seq<Node>, edges: Seq<Edge>, n: Node)
    requires
        forall|i: int| 0 <= i < edges.len() ==> edges[i].a != n && edges[i].b != n,
    ensures
        !has_key(adjacency(nodes, edges), n),
{
    let g = adjacency(nodes, edges);
    lemma_adjacency_entries(nodes, edges);
    lemma_neighbors_of_untouched(edges, n);
    if has_key(g, n) {
        let k = choose|k: int| 0 <= k < g.len() && g[k].0 == n;
        assert(g[k].1.len() > 0);
    }
}

/// Two equal edges `(u, v)` list `v` twice among the neighbours of `u`,
/// where `u` is among `nodes`.
pub proof fn law_repeated_edge_repeats_neighbor(nodes: Seq<Node>, edges: Seq<Edge>, i: int, j: int)
    requires
        0 <= i < edges.len(),
        0 <= j < edges.len(),
        i != j,
        edges[i] == edges[j],
        nodes.contains(edges[i].a),
    ensures
        exists|k: int, p: int, q: int|
            0 <= k < adjacency(nodes, edges).len() && adjacency(nodes, edges)[k].0 == edges[i].a
                && 0 <= p < q < adjacency(nodes, edges)[k].1.len() && adjacency(nodes, edges)[k].1[p]
                == edges[i].b && adjacency(nodes, edges)[k].1[q] == edges[i].b,
{
    let g = adjacency(nodes, edges);
    let u = edges[i].a;
    lemma_adjacency_entries(nodes, edges);
    if i < j {
        lemma_neighbors_repeat(edges, i, j);
    } else {
        lemma_neighbors_repeat(edges, j, i);
    }
    let nb = neighbors_along(edges, u);
    assert(nb.len() > 0);
    assert(has_key(g, u));
    let k = choose|k: int| 0 <= k < g.len() && g[k].0 == u;
    assert(g[k].1 == nb);
    let (p, q) = choose|p: int, q: int| 0 <= p < q < nb.len() && nb[p] == edges[i].b && nb[q] == edges[i].b;
    assert(g[k].1[p] == edges[i].b && g[k].1[q] == edges[i].b);
}

/// Building the adjacency twice from the same nodes and edges gives the same
/// entries, in the same order, with the same neighbour lists.
pub proof fn law_adjacency_is_repeatable(
    nodes: Seq<Node>,
    edges: Seq<Edge>,
    first: Seq<(Node, Seq<Node>)>,
    second: Seq<(Node, Seq<Node>)>,
)
    requires
        first == adjacency(nodes, edges),
        second == adjacency(nodes, edges),
    ensures
        first == second,
{
}

/// The neighbours of `node` along `edges`.
fn neighbors_of(edges: &Vec<Edge>, node: &Node) -> (r: Vec<Node>)
    ensures
        r@ == neighbors_along(edges@, *node),
{
    let mut r: Vec<Node> = Vec::new();
    let mut i: usize = 0;
    while i < edges.len()
        invariant
            i <= edges.len(),
            r@ == neighbors_along(edges@.take(i as int), *node),
        decreases edges.len() - i,
    {
        let e = edges[i];
        assert(edges@.take(i + 1).drop_last() =~= edges@.take(i as int));
        if e.a == *node {
            r.push(e.b);
        } else if e.b == *node {
            r.push(e.a);
        }
        i += 1;
    }
    assert(edges@.take(edges.len() as int) =~= edges@);
    r
}

/// Whether `node` is among the first `end` nodes.
fn occurs_before(nodes: &Vec<Node>, end: usize, node: &Node) -> (r: bool)
    requires
        end <= nodes.len(),
    ensures
        r == nodes@.take(end as int).contains(*node),
{
    let mut i: usize = 0;
    while i < end
        invariant
            i <= end <= nodes.len(),
            forall|k: int| 0 <= k < i ==> nodes@[k] != *node,
        decreases end - i,
    {
        if nodes[i] == *node {
            assert(nodes@.take(end as int)[i as int] == *node);
            return true;
        }
        i += 1;
    }
    false
}

/// The adjacency of `nodes` along `edges`: for each node of `nodes`, in the
/// order of first occurrence, the nodes that the edges connect it to, in
/// edge order and with repeats. Nodes without a neighbour have no entry.
pub fn create_graph(nodes: Vec<Node>, edges: Vec<Edge>) -> (r: Graph)
    ensures
        r@ == adjacency(nodes@, edges@),
        keys_distinct(r@),
        forall|n: Node|
            #[trigger] has_key(r@, n) <==> nodes@.contains(n) && neighbors_along(edges@, n).len()
                > 0,
        forall|k: int| 0 <= k < r@.len() ==> #[trigger] r@[k].1 == neighbors_along(edges@, r@[k].0),
{
    let mut entries: Vec<(Node, Vec<Node>)> = Vec::new();
    let mut i: usize = 0;
    while i < nodes.len()
        invariant
            i <= nodes.len(),
            entries@.map_values(|e: (Node, Vec<Node>)| (e.0, e.1@)) == adjacency(
                nodes@.take(i as int),
                edges@,
            ),
        decreases nodes.len() - i,
    {
        let node = nodes[i];
        let neighbors = neighbors_of(&edges, &node);
        let ghost before = entries@;
        assert(nodes@.take(i + 1).drop_last() =~= nodes@.take(i as int));
        if neighbors.len() > 0 && !occurs_before(&nodes, i, &node) {
            entries.push((node, neighbors));
            assert(entries@.map_values(|e: (Node, Vec<Node>)| (e.0, e.1@)) =~= before.map_values(
                |e: (Node, Vec<Node>)| (e.0, e.1@),
            ).push((node, neighbors_along(edges@, node))));
        }
        i += 1;
    }
    assert(nodes@.take(nodes.len() as int) =~= nodes@);
    let r = Graph { entries };
    proof {
        lemma_adjacency_entries(nodes@, edges@);
        assert forall|n: Node| #[trigger] has_key(r@, n) implies nodes@.contains(n)
            && neighbors_along(edges@, n).len() > 0 by {
            let k = choose|k: int| 0 <= k < r@.len() && r@[k].0 == n;
            assert(nodes@.contains(r@[k].0));
        }
    }
    r
}

} // verus!
