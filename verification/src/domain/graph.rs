use crate::domain::edge::{is_forward, is_forward_kind, EdgeKind};
use crate::domain::node::Node;
use crate::domain::type_registry::TypeRegistry;
use petgraph::graph::{Graph, NodeIndex};
use petgraph::{Directed, Direction};
use vstd::hash_map::StringHashMap;
use vstd::prelude::*;

verus! {

/// Symbol identifier (SCIP symbol string)
pub type SymbolId = String;

#[verifier::external_type_specification]
#[verifier::external_body]
#[verifier::reject_recursive_types(N)]
#[verifier::reject_recursive_types(E)]
#[verifier::reject_recursive_types(Ty)]
#[verifier::reject_recursive_types(Ix)]
pub struct ExPetGraph<N, E, Ty, Ix>(Graph<N, E, Ty, Ix>);

#[verifier::external_type_specification]
#[verifier::external_body]
pub struct ExDirected(Directed);

/// The directed petgraph graph that holds the context graph's nodes and edges.
pub type DependencyGraph = Graph<Node, EdgeKind, Directed, u32>;

/// The node weights of a petgraph graph, in index order.
pub uninterp spec fn graph_nodes(g: Graph<Node, EdgeKind, Directed, u32>) -> Seq<Node>;

/// The edges of a petgraph graph as (source, target, weight), in order of insertion.
pub uninterp spec fn graph_edges(g: Graph<Node, EdgeKind, Directed, u32>) -> Seq<(usize, usize, EdgeKind)>;

/// Edges leaving `a`, as (target, kind), most recently added first.
pub open spec fn out_edges_of(edges: Seq<(usize, usize, EdgeKind)>, a: usize) -> Seq<(usize, EdgeKind)>
    decreases edges.len(),
{
    if edges.len() == 0 {
        Seq::empty()
    } else {
        let e = edges.last();
        let rest = out_edges_of(edges.drop_last(), a);
        if e.0 == a {
            seq![(e.1, e.2)] + rest
        } else {
            rest
        }
    }
}

/// Edges entering `a`, as (source, kind), most recently added first.
pub open spec fn in_edges_of(edges: Seq<(usize, usize, EdgeKind)>, a: usize) -> Seq<(usize, EdgeKind)>
    decreases edges.len(),
{
    if edges.len() == 0 {
        Seq::empty()
    } else {
        let e = edges.last();
        let rest = in_edges_of(edges.drop_last(), a);
        if e.1 == a {
            seq![(e.0, e.2)] + rest
        } else {
            rest
        }
    }
}

/// Edges leaving `a` that are forward dependencies, most recently added first.
pub open spec fn forward_out_edges(edges: Seq<(usize, usize, EdgeKind)>, a: usize) -> Seq<(usize, EdgeKind)> {
    out_edges_of(edges, a).filter(|p: (usize, EdgeKind)| is_forward_kind(p.1))
}

/// Whether an edge of kind `k` is kept under the optional filter `kind`.
pub open spec fn edge_kind_selected(kind: Option<EdgeKind>, k: EdgeKind) -> bool {
    match kind {
        Some(wanted) => k == wanted,
        None => true,
    }
}

/// `petgraph::graph::Graph::new`: an empty graph.
#[verifier::external_body]
fn petgraph_new() -> (g: DependencyGraph)
    ensures
        graph_nodes(g) == Seq::<Node>::empty(),
        graph_edges(g) == Seq::<(usize, usize, EdgeKind)>::empty(),
{
    Graph::new()
}

/// `petgraph::graph::Graph::add_node`: appends the weight; the new index is the old node count.
/// petgraph panics when the u32 index space is exhausted, which `requires` rules out.
#[verifier::external_body]
fn petgraph_add_node(g: &mut DependencyGraph, weight: Node) -> (idx: usize)
    requires
        graph_nodes(*old(g)).len() < u32::MAX,
    ensures
        idx == graph_nodes(*old(g)).len(),
        graph_nodes(*final(g)) == graph_nodes(*old(g)).push(weight),
        graph_edges(*final(g)) == graph_edges(*old(g)),
{
    g.add_node(weight).index()
}

/// `petgraph::graph::Graph::add_edge`: appends the edge (parallel edges allowed).
/// petgraph panics on out-of-bounds endpoints or an exhausted u32 edge index space.
#[verifier::external_body]
fn petgraph_add_edge(g: &mut DependencyGraph, a: usize, b: usize, weight: EdgeKind)
    requires
        a < graph_nodes(*old(g)).len(),
        b < graph_nodes(*old(g)).len(),
        graph_edges(*old(g)).len() < u32::MAX,
    ensures
        graph_nodes(*final(g)) == graph_nodes(*old(g)),
        graph_edges(*final(g)) == graph_edges(*old(g)).push((a, b, weight)),
{
    g.add_edge(NodeIndex::new(a), NodeIndex::new(b), weight);
}

/// `petgraph::graph::Graph::node_count`.
#[verifier::external_body]
fn petgraph_node_count(g: &DependencyGraph) -> (n: usize)
    ensures
        n == graph_nodes(*g).len(),
{
    g.node_count()
}

/// `petgraph::graph::Graph::edge_count`.
#[verifier::external_body]
fn petgraph_edge_count(g: &DependencyGraph) -> (n: usize)
    ensures
        n == graph_edges(*g).len(),
{
    g.edge_count()
}

/// Indexing a petgraph graph by node index (panics when out of bounds).
#[verifier::external_body]
fn petgraph_node(g: &DependencyGraph, idx: usize) -> (r: &Node)
    requires
        idx < graph_nodes(*g).len(),
    ensures
        *r == graph_nodes(*g)[idx as int],
{
    &g[NodeIndex::new(idx)]
}

/// Mutable indexing of a petgraph graph by node index (panics when out of bounds): the
/// node's weight, written back in place; nothing else changes.
#[verifier::external_body]
fn petgraph_node_mut(g: &mut DependencyGraph, idx: usize) -> (r: &mut Node)
    requires
        idx < graph_nodes(*old(g)).len(),
    ensures
        *r == graph_nodes(*old(g))[idx as int],
        graph_nodes(*final(g)) == graph_nodes(*old(g)).update(idx as int, *final(r)),
        graph_edges(*final(g)) == graph_edges(*old(g)),
{
    &mut g[NodeIndex::new(idx)]
}

/// `petgraph::graph::Graph::edges_directed(a, Outgoing)`: for a directed graph, the edges
/// from `a`, most recently added first; each is handed out as (target, weight).
#[verifier::external_body]
fn petgraph_outgoing(g: &DependencyGraph, a: usize) -> (r: Vec<(usize, EdgeKind)>)
    requires
        a < graph_nodes(*g).len(),
    ensures
        r@ == out_edges_of(graph_edges(*g), a),
{
    g.edges_directed(NodeIndex::new(a), Direction::Outgoing).map(
        |e| (petgraph::visit::EdgeRef::target(&e).index(), *e.weight()),
    ).collect()
}

/// `petgraph::graph::Graph::edges_directed(a, Incoming)`: for a directed graph, the edges
/// into `a`, most recently added first; each is handed out as (source, weight).
#[verifier::external_body]
fn petgraph_incoming(g: &DependencyGraph, a: usize) -> (r: Vec<(usize, EdgeKind)>)
    requires
        a < graph_nodes(*g).len(),
    ensures
        r@ == in_edges_of(graph_edges(*g), a),
{
    g.edges_directed(NodeIndex::new(a), Direction::Incoming).map(
        |e| (petgraph::visit::EdgeRef::source(&e).index(), *e.weight()),
    ).collect()
}

/// The position of the most recently added edge from `a` to `b`.
pub open spec fn latest_edge(edges: Seq<(usize, usize, EdgeKind)>, a: usize, b: usize) -> Option<int>
    decreases edges.len(),
{
    if edges.len() == 0 {
        None
    } else if edges.last().0 == a && edges.last().1 == b {
        Some(edges.len() - 1)
    } else {
        latest_edge(edges.drop_last(), a, b)
    }
}

/// The edges leaving `a` as (target, kind), the kind taken from the most recently added edge
/// from `a` to that target.
pub open spec fn neighbors_of(edges: Seq<(usize, usize, EdgeKind)>, a: usize) -> Seq<(usize, EdgeKind)> {
    out_edges_of(edges, a).map_values(
        |p: (usize, EdgeKind)|
            (
                p.0,
                match latest_edge(edges, a, p.0) {
                    Some(e) => edges[e].2,
                    None => p.1,
                },
            ),
    )
}

/// `petgraph::graph::Graph::find_edge(a, b)` on a directed graph: it walks `a`'s outgoing
/// edges from the newest, so it finds the most recently added edge from `a` to `b` (edge
/// indices are insertion positions, as nothing is removed).
#[verifier::external_body]
fn petgraph_find_edge(g: &DependencyGraph, a: usize, b: usize) -> (r: Option<usize>)
    requires
        a < graph_nodes(*g).len(),
        b < graph_nodes(*g).len(),
    ensures
        match latest_edge(graph_edges(*g), a, b) {
            Some(e) => r matches Some(x) && x == e,
            None => r is None,
        },
{
    g.find_edge(NodeIndex::new(a), NodeIndex::new(b)).map(|e| e.index())
}

/// `petgraph::graph::Graph::edge_weight(e)`: the weight of edge `e`, for an edge of the graph.
#[verifier::external_body]
fn petgraph_edge_weight(g: &DependencyGraph, e: usize) -> (r: Option<EdgeKind>)
    requires
        e < graph_edges(*g).len(),
    ensures
        r == Some(graph_edges(*g)[e as int].2),
{
    g.edge_weight(petgraph::graph::EdgeIndex::new(e)).copied()
}

/// An edge listed as leaving `a` towards `b` makes `latest_edge(a, b)` a real edge position.
proof fn lemma_latest_edge_exists(edges: Seq<(usize, usize, EdgeKind)>, a: usize, k: int)
    requires
        0 <= k < out_edges_of(edges, a).len(),
    ensures
        latest_edge(edges, a, out_edges_of(edges, a)[k].0) matches Some(e) && 0 <= e < edges.len()
            && edges[e].0 == a && edges[e].1 == out_edges_of(edges, a)[k].0,
    decreases edges.len(),
{
    let d = edges.drop_last();
    let e = edges.last();
    let rest = out_edges_of(d, a);
    let b = out_edges_of(edges, a)[k].0;
    if e.0 == a && e.1 == b {
    } else if e.0 == a {
        assert(out_edges_of(edges, a)[k] == rest[k - 1]);
        lemma_latest_edge_exists(d, a, k - 1);
    } else {
        assert(out_edges_of(edges, a)[k] == rest[k]);
        lemma_latest_edge_exists(d, a, k);
    }
}

/// Every listed edge target is below `n` when every edge's endpoints are.
pub proof fn lemma_out_edges_bound(edges: Seq<(usize, usize, EdgeKind)>, a: usize, n: int)
    requires
        forall|e: int| 0 <= e < edges.len() ==> #[trigger] edges[e].0 < n && edges[e].1 < n,
    ensures
        forall|k: int|
            0 <= k < out_edges_of(edges, a).len() ==> #[trigger] out_edges_of(edges, a)[k].0 < n,
    decreases edges.len(),
{
    if edges.len() > 0 {
        let d = edges.drop_last();
        assert forall|e: int| 0 <= e < d.len() implies #[trigger] d[e].0 < n && d[e].1 < n by {
            assert(d[e] == edges[e]);
        }
        lemma_out_edges_bound(d, a, n);
        assert(edges[edges.len() - 1] == edges.last());
        let r = out_edges_of(edges, a);
        let rest = out_edges_of(d, a);
        assert forall|k: int| 0 <= k < r.len() implies #[trigger] r[k].0 < n by {
            if r.len() > rest.len() {
                if k > 0 {
                    assert(r[k] == rest[k - 1]);
                }
            } else {
                assert(r[k] == rest[k]);
            }
        }
    }
}

/// Every listed edge source is below `n` when every edge's endpoints are.
pub proof fn lemma_in_edges_bound(edges: Seq<(usize, usize, EdgeKind)>, a: usize, n: int)
    requires
        forall|e: int| 0 <= e < edges.len() ==> #[trigger] edges[e].0 < n && edges[e].1 < n,
    ensures
        forall|k: int|
            0 <= k < in_edges_of(edges, a).len() ==> #[trigger] in_edges_of(edges, a)[k].0 < n,
    decreases edges.len(),
{
    if edges.len() > 0 {
        let d = edges.drop_last();
        assert forall|e: int| 0 <= e < d.len() implies #[trigger] d[e].0 < n && d[e].1 < n by {
            assert(d[e] == edges[e]);
        }
        lemma_in_edges_bound(d, a, n);
        assert(edges[edges.len() - 1] == edges.last());
        let r = in_edges_of(edges, a);
        let rest = in_edges_of(d, a);
        assert forall|k: int| 0 <= k < r.len() implies #[trigger] r[k].0 < n by {
            if r.len() > rest.len() {
                if k > 0 {
                    assert(r[k] == rest[k - 1]);
                }
            } else {
                assert(r[k] == rest[k]);
            }
        }
    }
}

/// Context Graph - the core data structure
pub struct ContextGraph {
    /// The directed graph of nodes and edges
    pub graph: DependencyGraph,
    /// Mapping from symbol to node index
    pub symbol_to_node: StringHashMap<usize>,
    /// Type definitions (types are not graph nodes)
    pub type_registry: TypeRegistry,
    /// Symbol under which each node was added, by node index
    node_symbols: Vec<SymbolId>,
}

impl ContextGraph {
    pub closed spec fn nodes(&self) -> Seq<Node> {
        graph_nodes(self.graph)
    }

    pub closed spec fn edges(&self) -> Seq<(usize, usize, EdgeKind)> {
        graph_edges(self.graph)
    }

    /// The registered types.
    pub closed spec fn types(&self) -> Map<Seq<char>, crate::domain::type_registry::TypeInfo> {
        self.type_registry@
    }

    /// Symbol under which node `i` was added.
    pub closed spec fn symbol_of(&self, i: int) -> Seq<char> {
        self.node_symbols@[i]@
    }

    /// The symbol map: each symbol maps to the index of the last node added under it.
    pub closed spec fn symbol_map(&self) -> Map<Seq<char>, usize> {
        self.symbol_to_node@
    }

    /// Well-formedness: edges stay within the nodes; the symbol map sends each symbol to
    /// the last node added under it.
    pub closed spec fn wf(&self) -> bool {
        &&& self.nodes().len() <= u32::MAX
        &&& self.node_symbols@.len() == self.nodes().len()
        &&& forall|e: int|
            0 <= e < self.edges().len() ==> #[trigger] self.edges()[e].0 < self.nodes().len()
                && self.edges()[e].1 < self.nodes().len()
        &&& forall|i: int|
            0 <= i < self.nodes().len() ==> self.symbol_to_node@.contains_key(
                #[trigger] self.node_symbols@[i]@,
            )
        &&& forall|k: Seq<char>|
            #[trigger] self.symbol_to_node@.contains_key(k) ==> {
                let j = self.symbol_to_node@[k] as int;
                &&& 0 <= j < self.nodes().len()
                &&& self.node_symbols@[j]@ == k
                &&& forall|m: int| j < m < self.nodes().len() ==> #[trigger] self.node_symbols@[m]@ != k
            }
    }

    /// What `get_node_by_symbol` reads back of `add_node`: the symbol now names the new
    /// node, and every other symbol names the node it named before.
    pub proof fn law_add_node_then_lookup(before: ContextGraph, after: ContextGraph, symbol: Seq<char>, idx: usize, other: Seq<char>)
        requires
            after.symbol_map() == before.symbol_map().insert(symbol, idx),
        ensures
            after.symbol_map().contains_key(symbol) && after.symbol_map()[symbol] == idx,
            other != symbol ==> after.symbol_map().contains_key(other) == before.symbol_map().contains_key(other),
            other != symbol && before.symbol_map().contains_key(other) ==> after.symbol_map()[other]
                == before.symbol_map()[other],
    {
    }

    /// The key by which the traversal orders neighbours: the node's symbol when the symbol
    /// map points back at the node, otherwise the empty string.
    pub open spec fn sort_key(&self, i: int) -> Seq<char> {
        let s = self.symbol_of(i);
        if self.symbol_map().contains_key(s) && self.symbol_map()[s] == i {
            s
        } else {
            Seq::empty()
        }
    }

    pub fn new() -> (r: ContextGraph)
        ensures
            r.wf(),
            r.nodes() == Seq::<Node>::empty(),
            r.edges() == Seq::<(usize, usize, EdgeKind)>::empty(),
            r.symbol_map() == Map::<Seq<char>, usize>::empty(),
            r.types() == Map::<Seq<char>, crate::domain::type_registry::TypeInfo>::empty(),
    {
        ContextGraph {
            graph: petgraph_new(),
            symbol_to_node: StringHashMap::new(),
            type_registry: TypeRegistry::new(),
            node_symbols: Vec::new(),
        }
    }

    pub fn add_node(&mut self, symbol: SymbolId, node: Node) -> (idx: usize)
        requires
            old(self).wf(),
            old(self).nodes().len() < u32::MAX,
        ensures
            final(self).wf(),
            idx == old(self).nodes().len(),
            final(self).nodes() == old(self).nodes().push(node),
            final(self).edges() == old(self).edges(),
            final(self).symbol_map() == old(self).symbol_map().insert(symbol@, idx),
            final(self).symbol_of(idx as int) == symbol@,
            forall|i: int| 0 <= i < idx ==> final(self).symbol_of(i) == old(self).symbol_of(i),
            final(self).types() == old(self).types(),
    {
        let ghost s = symbol@;
        let idx = petgraph_add_node(&mut self.graph, node);
        let key = symbol.clone();
        self.symbol_to_node.insert(key, idx);
        self.node_symbols.push(symbol);
        proof {
            assert(self.node_symbols@[idx as int]@ == s);
            assert forall|k: Seq<char>| #[trigger] self.symbol_to_node@.contains_key(k) implies {
                let j = self.symbol_to_node@[k] as int;
                &&& 0 <= j < self.nodes().len()
                &&& self.node_symbols@[j]@ == k
                &&& forall|m: int| j < m < self.nodes().len() ==> #[trigger] self.node_symbols@[m]@ != k
            } by {
                if k != s {
                    assert(old(self).symbol_to_node@.contains_key(k));
                    let j = old(self).symbol_to_node@[k] as int;
                    assert(self.node_symbols@[j] == old(self).node_symbols@[j]);
                    assert forall|m: int| j < m < self.nodes().len() implies #[trigger] self.node_symbols@[m]@ != k by {
                        if m < idx {
                            assert(self.node_symbols@[m] == old(self).node_symbols@[m]);
                        }
                    }
                }
            }
            assert forall|i: int| 0 <= i < self.nodes().len() implies self.symbol_to_node@.contains_key(
                #[trigger] self.node_symbols@[i]@,
            ) by {
                if i < idx {
                    assert(self.node_symbols@[i] == old(self).node_symbols@[i]);
                    assert(old(self).symbol_to_node@.contains_key(old(self).node_symbols@[i]@));
                }
            }
            assert forall|e: int| 0 <= e < self.edges().len() implies #[trigger] self.edges()[e].0 < self.nodes().len()
                && self.edges()[e].1 < self.nodes().len() by {
                assert(old(self).edges()[e].0 < old(self).nodes().len());
            }
        }
        idx
    }

    pub fn add_edge(&mut self, source: usize, target: usize, kind: EdgeKind)
        requires
            old(self).wf(),
            source < old(self).nodes().len(),
            target < old(self).nodes().len(),
            old(self).edges().len() < u32::MAX,
        ensures
            final(self).wf(),
            final(self).nodes() == old(self).nodes(),
            final(self).edges() == old(self).edges().push((source, target, kind)),
            final(self).symbol_map() == old(self).symbol_map(),
            forall|i: int| #[trigger] final(self).symbol_of(i) == old(self).symbol_of(i),
            final(self).types() == old(self).types(),
    {
        petgraph_add_edge(&mut self.graph, source, target, kind);
        proof {
            assert forall|e: int| 0 <= e < self.edges().len() implies #[trigger] self.edges()[e].0 < self.nodes().len()
                && self.edges()[e].1 < self.nodes().len() by {
                if e < old(self).edges().len() {
                    assert(old(self).edges()[e].0 < old(self).nodes().len());
                }
            }
        }
    }

    pub fn get_node_by_symbol(&self, symbol: &str) -> (r: Option<usize>)
        requires
            self.wf(),
        ensures
            r == (if self.symbol_map().contains_key(symbol@) {
                Some(self.symbol_map()[symbol@])
            } else {
                None
            }),
            r matches Some(i) ==> i < self.nodes().len(),
    {
        match self.symbol_to_node.get(symbol) {
            Some(i) => Some(*i),
            None => None,
        }
    }

    /// A well-formed graph has at most `u32::MAX` nodes (petgraph's index limit).
    pub proof fn lemma_wf_node_bound(&self)
        requires
            self.wf(),
        ensures
            self.nodes().len() <= u32::MAX,
    {
    }

    /// In a well-formed graph every edge joins two of its nodes, and the nodes fit `u32`
    /// indices.
    pub proof fn lemma_wf_edges(&self)
        requires
            self.wf(),
        ensures
            self.nodes().len() <= u32::MAX,
            forall|e: int|
                0 <= e < self.edges().len() ==> #[trigger] self.edges()[e].0 < self.nodes().len()
                    && self.edges()[e].1 < self.nodes().len(),
    {
    }

    /// Replace the registry of type definitions.
    pub fn set_type_registry(&mut self, registry: TypeRegistry)
        requires
            old(self).wf(),
        ensures
            final(self).wf(),
            final(self).types() == registry@,
            final(self).nodes() == old(self).nodes(),
            final(self).edges() == old(self).edges(),
            final(self).symbol_map() == old(self).symbol_map(),
            forall|i: int| #[trigger] final(self).symbol_of(i) == old(self).symbol_of(i),
    {
        self.type_registry = registry;
        assert(self.graph == old(self).graph);
        assert(self.symbol_to_node == old(self).symbol_to_node);
        assert(self.node_symbols == old(self).node_symbols);
        assert(self.nodes() == old(self).nodes());
        assert(self.edges() == old(self).edges());
        assert(self.wf());
    }

    /// The node at `idx`, to be changed in place.
    pub fn node_mut(&mut self, idx: usize) -> (r: &mut Node)
        requires
            old(self).wf(),
            idx < old(self).nodes().len(),
        ensures
            *r == old(self).nodes()[idx as int],
            final(self).nodes() == old(self).nodes().update(idx as int, *final(r)),
            final(self).edges() == old(self).edges(),
            final(self).symbol_map() == old(self).symbol_map(),
            forall|i: int| #[trigger] final(self).symbol_of(i) == old(self).symbol_of(i),
            final(self).types() == old(self).types(),
            final(self).wf(),
    {
        petgraph_node_mut(&mut self.graph, idx)
    }

    pub fn node_count(&self) -> (n: usize)
        ensures
            n == self.nodes().len(),
    {
        petgraph_node_count(&self.graph)
    }

    pub fn edge_count(&self) -> (n: usize)
        ensures
            n == self.edges().len(),
    {
        petgraph_edge_count(&self.graph)
    }

    pub fn node(&self, idx: usize) -> (r: &Node)
        requires
            idx < self.nodes().len(),
        ensures
            *r == self.nodes()[idx as int],
    {
        petgraph_node(&self.graph, idx)
    }

    /// The registry of type definitions.
    pub fn registry(&self) -> (r: &TypeRegistry)
        ensures
            r@ == self.types(),
    {
        &self.type_registry
    }

    /// The symbol under which node `idx` was added.
    pub fn symbol(&self, idx: usize) -> (r: &SymbolId)
        requires
            self.wf(),
            idx < self.nodes().len(),
        ensures
            r@ == self.symbol_of(idx as int),
    {
        &self.node_symbols[idx]
    }

    /// The symbol that the symbol map sends to node `idx`, if any: a node added under a
    /// symbol that a later node took over has none.
    pub fn symbol_for_node(&self, idx: usize) -> (r: Option<&SymbolId>)
        requires
            self.wf(),
            idx < self.nodes().len(),
        ensures
            r matches Some(s) ==> self.symbol_map().contains_key(s@) && self.symbol_map()[s@] == idx
                && s@ == self.symbol_of(idx as int),
            r is None ==> forall|k: Seq<char>|
                #[trigger] self.symbol_map().contains_key(k) ==> self.symbol_map()[k] != idx,
    {
        let s = &self.node_symbols[idx];
        match self.symbol_to_node.get(s.as_str()) {
            Some(j) => {
                if *j == idx {
                    return Some(s);
                }
            },
            None => {},
        }
        None
    }

    /// Outgoing edges of `idx` as (target, kind), most recently added first.
    pub fn outgoing_edges(&self, idx: usize) -> (r: Vec<(usize, EdgeKind)>)
        requires
            self.wf(),
            idx < self.nodes().len(),
        ensures
            r@ == out_edges_of(self.edges(), idx),
            forall|k: int| 0 <= k < r@.len() ==> #[trigger] r@[k].0 < self.nodes().len(),
    {
        proof {
            lemma_out_edges_bound(self.edges(), idx, self.nodes().len() as int);
        }
        petgraph_outgoing(&self.graph, idx)
    }

    /// The neighbours of `idx` along its outgoing edges, most recent edge first, each with
    /// the kind of the most recently added edge to it.
    pub fn neighbors(&self, idx: usize) -> (r: Vec<(usize, EdgeKind)>)
        requires
            self.wf(),
            idx < self.nodes().len(),
        ensures
            r@ == neighbors_of(self.edges(), idx),
    {
        let out = self.outgoing_edges(idx);
        let ghost spec_r = neighbors_of(self.edges(), idx);
        let mut r: Vec<(usize, EdgeKind)> = Vec::new();
        let mut i: usize = 0;
        while i < out.len()
            invariant
                i <= out@.len(),
                out@ == out_edges_of(self.edges(), idx),
                spec_r == neighbors_of(self.edges(), idx),
                self.wf(),
                idx < self.nodes().len(),
                r@ == spec_r.take(i as int),
            decreases out@.len() - i,
        {
            let neighbor = out[i].0;
            proof {
                lemma_latest_edge_exists(self.edges(), idx, i as int);
                self.lemma_wf_edges();
            }
            let e = petgraph_find_edge(&self.graph, idx, neighbor).unwrap();
            let kind = petgraph_edge_weight(&self.graph, e).unwrap();
            r.push((neighbor, kind));
            proof {
                let le = latest_edge(self.edges(), idx, neighbor);
                assert(le == Some(e as int));
                assert(kind == self.edges()[e as int].2);
                assert(spec_r[i as int] == (neighbor, kind));
                assert(spec_r.take(i as int + 1) =~= spec_r.take(i as int).push(spec_r[i as int]));
            }
            i = i + 1;
        }
        proof {
            assert(spec_r.take(out@.len() as int) =~= spec_r);
        }
        r
    }

    /// Incoming edges of `idx` as (source, kind), most recently added first, keeping only
    /// the edges of `kind` when one is given.
    pub fn incoming_edges(&self, idx: usize, kind: Option<EdgeKind>) -> (r: Vec<(usize, EdgeKind)>)
        requires
            self.wf(),
            idx < self.nodes().len(),
        ensures
            r@ == in_edges_of(self.edges(), idx).filter(|p: (usize, EdgeKind)| edge_kind_selected(kind, p.1)),
            forall|k: int| 0 <= k < r@.len() ==> #[trigger] r@[k].0 < self.nodes().len(),
    {
        proof {
            lemma_in_edges_bound(self.edges(), idx, self.nodes().len() as int);
        }
        let all = petgraph_incoming(&self.graph, idx);
        let ghost pred = |p: (usize, EdgeKind)| edge_kind_selected(kind, p.1);
        let mut r: Vec<(usize, EdgeKind)> = Vec::new();
        let mut i: usize = 0;
        while i < all.len()
            invariant
                i <= all@.len(),
                pred == (|p: (usize, EdgeKind)| edge_kind_selected(kind, p.1)),
                r@ == all@.take(i as int).filter(pred),
                forall|k: int| 0 <= k < all@.len() ==> #[trigger] all@[k].0 < self.nodes().len(),
                forall|k: int| 0 <= k < r@.len() ==> #[trigger] r@[k].0 < self.nodes().len(),
            decreases all@.len() - i,
        {
            proof {
                reveal_with_fuel(Seq::filter, 1);
                assert(all@.take(i as int + 1).drop_last() =~= all@.take(i as int));
            }
            let p = all[i];
            let keep = match kind {
                Some(k) => p.1 == k,
                None => true,
            };
            assert(all@.take(i as int + 1).last() == p);
            assert(keep == pred(p));
            if keep {
                r.push(p);
            }
            assert(r@ == all@.take(i as int + 1).filter(pred));
            i = i + 1;
        }
        assert(all@.take(i as int) =~= all@);
        r
    }
    /// The forward edges leaving `idx` (see `is_forward_kind`), most recent first.
    pub fn forward_edges(&self, idx: usize) -> (r: Vec<(usize, EdgeKind)>)
        requires
            self.wf(),
            idx < self.nodes().len(),
        ensures
            r@ == forward_out_edges(self.edges(), idx),
            forall|k: int| 0 <= k < r@.len() ==> #[trigger] r@[k].0 < self.nodes().len(),
    {
        let all = self.outgoing_edges(idx);
        let ghost pred = |p: (usize, EdgeKind)| is_forward_kind(p.1);
        let mut r: Vec<(usize, EdgeKind)> = Vec::new();
        let mut i: usize = 0;
        while i < all.len()
            invariant
                i <= all@.len(),
                pred == (|p: (usize, EdgeKind)| is_forward_kind(p.1)),
                r@ == all@.take(i as int).filter(pred),
                forall|k: int| 0 <= k < all@.len() ==> #[trigger] all@[k].0 < self.nodes().len(),
                forall|k: int| 0 <= k < r@.len() ==> #[trigger] r@[k].0 < self.nodes().len(),
            decreases all@.len() - i,
        {
            proof {
                reveal_with_fuel(Seq::filter, 1);
                assert(all@.take(i as int + 1).drop_last() =~= all@.take(i as int));
            }
            let p = all[i];
            let keep = is_forward(&p.1);
            assert(all@.take(i as int + 1).last() == p);
            assert(keep == pred(p));
            if keep {
                r.push(p);
            }
            assert(r@ == all@.take(i as int + 1).filter(pred));
            i = i + 1;
        }
        assert(all@.take(i as int) =~= all@);
        r
    }
}

} // verus!
