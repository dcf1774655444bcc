use crate::domain::edge::{is_forward_kind, EdgeKind};
use crate::domain::graph::{
    edge_kind_selected, forward_out_edges, in_edges_of, lemma_in_edges_bound,
    lemma_out_edges_bound, out_edges_of, ContextGraph,
};
use crate::domain::node::{Mutability, Node, NodeId};
use crate::domain::policy::{
    call_in_source_decision, evaluate, spec_call_in_decision, spec_evaluate, PruningDecision,
    PruningParams,
};
use crate::text::{lex_less, seq_lex_less, str_chars};
use std::collections::HashSet;
use std::collections::VecDeque;
use std::sync::Arc;
use vstd::multiset::Multiset;
use vstd::prelude::*;

verus! {

broadcast use vstd::std_specs::hash::group_hash_axioms;

/// How a queued node was reached (for edge-aware pruning and reverse exploration).
#[derive(Debug, Clone, Copy, PartialEq, Eq, Structural)]
pub enum ReachedVia {
    Start,
    Forward(EdgeKind),
    /// Reached by following incoming Call edges (call-in exploration).
    CallIn,
    /// Reached by following incoming Write edges (shared-state write exploration).
    SharedStateWrite,
}

/// Single step in BFS traversal: node plus the edge/decision that led to it.
#[derive(Debug, Clone, Copy, PartialEq, Eq, Structural)]
pub struct TraversalStep {
    pub node_id: NodeId,
    pub incoming_edge_kind: Option<EdgeKind>,
    pub decision: Option<PruningDecision>,
}

/// CF computation result
#[derive(Debug)]
pub struct CfResult {
    pub reachable_set: HashSet<NodeId>,
    pub reachable_nodes_ordered: Vec<NodeId>,
    pub reachable_nodes_by_layer: Vec<Vec<NodeId>>,
    /// Traversal steps in BFS order: for each node, the edge kind and decision that led to it
    /// (None for nodes not reached by a forward edge).
    pub traversal_steps: Vec<TraversalStep>,
    pub total_context_size: u32,
}

/// A queued visit: node index, BFS depth, how it was reached, and the decision that led to it.
pub type QueueItem = (usize, u32, ReachedVia, Option<PruningDecision>);

/// The state of the CF traversal.
pub struct TraversalState {
    pub queue: Seq<QueueItem>,
    pub visited: Set<NodeId>,
    pub ordered: Seq<NodeId>,
    pub steps: Seq<TraversalStep>,
    pub layers: Seq<Seq<NodeId>>,
    pub total: int,
    /// The token limit stopped the traversal.
    pub halted: bool,
    /// Some running total exceeded the range of `u32`.
    pub overflow: bool,
}

// -----------------------------------------------------------------------------
// Specification of the traversal
// -----------------------------------------------------------------------------

pub open spec fn node_id_of(g: ContextGraph, i: usize) -> NodeId {
    g.nodes()[i as int].spec_core().id
}

pub open spec fn node_size_of(g: ContextGraph, i: usize) -> u32 {
    g.nodes()[i as int].spec_core().context_size
}

/// `layers` with `id` appended to layer `depth`, adding empty layers as needed.
pub open spec fn layers_add(layers: Seq<Seq<NodeId>>, depth: int, id: NodeId) -> Seq<Seq<NodeId>> {
    let ext = if layers.len() > depth {
        layers
    } else {
        layers + Seq::new((depth + 1 - layers.len()) as nat, |i: int| Seq::<NodeId>::empty())
    };
    ext.update(depth, ext[depth].push(id))
}

/// Count node `id` (of the given size) as reached at `depth`.
pub open spec fn state_record(
    s: TraversalState,
    id: NodeId,
    size: u32,
    depth: int,
    edge: Option<EdgeKind>,
    decision: Option<PruningDecision>,
) -> TraversalState {
    TraversalState {
        visited: s.visited.insert(id),
        ordered: s.ordered.push(id),
        steps: s.steps.push(TraversalStep { node_id: id, incoming_edge_kind: edge, decision }),
        layers: layers_add(s.layers, depth, id),
        total: s.total + size,
        overflow: s.overflow || s.total + size > u32::MAX,
        ..s
    }
}

pub open spec fn limit_reached(max_tokens: Option<u32>, total: int) -> bool {
    match max_tokens {
        Some(l) => total >= l,
        None => false,
    }
}

/// Key `a` sorts strictly after key `b`.
pub open spec fn key_after(g: ContextGraph, a: usize, b: usize) -> bool {
    seq_lex_less(g.sort_key(b as int), g.sort_key(a as int))
}

/// Insert `x` into the key-sorted `s` after every element whose key is not greater.
pub open spec fn insert_by_key(g: ContextGraph, s: Seq<(usize, EdgeKind)>, x: (usize, EdgeKind)) -> Seq<
    (usize, EdgeKind),
>
    decreases s.len(),
{
    if s.len() == 0 {
        seq![x]
    } else if key_after(g, s.last().0, x.0) {
        insert_by_key(g, s.drop_last(), x).push(s.last())
    } else {
        s.push(x)
    }
}

/// Stable sort of `s` by the targets' sort keys.
pub open spec fn sort_by_key(g: ContextGraph, s: Seq<(usize, EdgeKind)>) -> Seq<(usize, EdgeKind)>
    decreases s.len(),
{
    if s.len() == 0 {
        s
    } else {
        insert_by_key(g, sort_by_key(g, s.drop_last()), s.last())
    }
}

/// Outgoing edges of `cur` in traversal order: sorted by the targets' symbols.
pub open spec fn sorted_out_edges(g: ContextGraph, cur: usize) -> Seq<(usize, EdgeKind)> {
    sort_by_key(g, forward_out_edges(g.edges(), cur))
}

/// Follow the forward edge `cur --ek--> nb` from a node at `depth`; the flag says the
/// token limit stopped the scan of the remaining edges.
pub open spec fn forward_one(
    g: ContextGraph,
    params: PruningParams,
    max_tokens: Option<u32>,
    s: TraversalState,
    depth: u32,
    nb: usize,
    ek: EdgeKind,
) -> (TraversalState, bool) {
    let target = g.nodes()[nb as int];
    let id = node_id_of(g, nb);
    let size = node_size_of(g, nb);
    let d = spec_evaluate(params, target, ek, g.types());
    if d == PruningDecision::Transparent {
        (
            TraversalState {
                queue: s.queue.push((nb, (depth + 1) as u32, ReachedVia::Forward(ek), Some(d))),
                ..s
            },
            false,
        )
    } else if s.visited.contains(id) {
        (s, false)
    } else if max_tokens is Some && s.total + size > max_tokens->0 {
        (TraversalState { overflow: s.overflow || s.total + size > u32::MAX, ..s }, true)
    } else {
        (state_record(s, id, size, depth + 1, Some(ek), Some(d)), false)
    }
}

/// Follow the forward edges `items` in order, stopping at the first that hits the limit.
pub open spec fn forward_fold(
    g: ContextGraph,
    params: PruningParams,
    max_tokens: Option<u32>,
    s: TraversalState,
    depth: u32,
    items: Seq<(usize, EdgeKind)>,
) -> (TraversalState, bool)
    decreases items.len(),
{
    if items.len() == 0 {
        (s, false)
    } else {
        let prev = forward_fold(g, params, max_tokens, s, depth, items.drop_last());
        if prev.1 {
            prev
        } else {
            forward_one(g, params, max_tokens, prev.0, depth, items.last().0, items.last().1)
        }
    }
}

/// Queue the not yet visited sources of `items` (reverse exploration) at `depth + 1`.
pub open spec fn reverse_fold(
    g: ContextGraph,
    s: TraversalState,
    depth: u32,
    items: Seq<(usize, EdgeKind)>,
    via: ReachedVia,
) -> TraversalState
    decreases items.len(),
{
    if items.len() == 0 {
        s
    } else {
        let prev = reverse_fold(g, s, depth, items.drop_last(), via);
        let src = items.last().0;
        if prev.visited.contains(node_id_of(g, src)) {
            prev
        } else {
            TraversalState {
                queue: prev.queue.push((src, (depth + 1) as u32, via, None)),
                ..prev
            }
        }
    }
}

/// Incoming edges of `cur` of the given kind.
pub open spec fn in_edges_of_kind(g: ContextGraph, cur: usize, kind: EdgeKind) -> Seq<(usize, EdgeKind)> {
    in_edges_of(g.edges(), cur).filter(|p: (usize, EdgeKind)| edge_kind_selected(Some(kind), p.1))
}

/// Explore from node `cur` (already counted): forward edges, then callers (for
/// under-specified functions), then writers (for mutable variables reached by a read).
pub open spec fn expand(
    g: ContextGraph,
    params: PruningParams,
    max_tokens: Option<u32>,
    s: TraversalState,
    cur: usize,
    depth: u32,
    via: ReachedVia,
) -> TraversalState {
    let node = g.nodes()[cur as int];
    let s2 = forward_fold(g, params, max_tokens, s, depth, sorted_out_edges(g, cur)).0;
    let s3 = if node is Function && spec_call_in_decision(params, node)
        == PruningDecision::Transparent {
        reverse_fold(g, s2, depth, in_edges_of_kind(g, cur, EdgeKind::Call), ReachedVia::CallIn)
    } else {
        s2
    };
    let s4 = if node matches Node::Variable(v) && v.mutability == Mutability::Mutable && via
        == ReachedVia::Forward(EdgeKind::Read) {
        reverse_fold(
            g,
            s3,
            depth,
            in_edges_of_kind(g, cur, EdgeKind::Write),
            ReachedVia::SharedStateWrite,
        )
    } else {
        s3
    };
    if limit_reached(max_tokens, s4.total) {
        TraversalState { halted: true, ..s4 }
    } else {
        s4
    }
}

pub open spec fn is_terminal(s: TraversalState) -> bool {
    s.halted || s.queue.len() == 0
}

/// One iteration of the traversal: dequeue the front item and process it.
pub open spec fn traversal_step(
    g: ContextGraph,
    params: PruningParams,
    max_tokens: Option<u32>,
    s: TraversalState,
) -> TraversalState {
    if is_terminal(s) {
        s
    } else {
        let item = s.queue[0];
        let cur = item.0;
        let depth = item.1;
        let via = item.2;
        let s0 = TraversalState { queue: s.queue.drop_first(), ..s };
        let id = node_id_of(g, cur);
        if s0.visited.contains(id) {
            s0
        } else {
            let edge = match via {
                ReachedVia::Forward(ek) => Some(ek),
                _ => None,
            };
            let s1 = state_record(s0, id, node_size_of(g, cur), depth as int, edge, item.3);
            if limit_reached(max_tokens, s1.total) {
                TraversalState { halted: true, ..s1 }
            } else if via == ReachedVia::CallIn {
                s1
            } else {
                expand(g, params, max_tokens, s1, cur, depth, via)
            }
        }
    }
}

/// The state after `k` iterations.
pub open spec fn traversal_run(
    g: ContextGraph,
    params: PruningParams,
    max_tokens: Option<u32>,
    s: TraversalState,
    k: nat,
) -> TraversalState
    decreases k,
{
    if k == 0 {
        s
    } else {
        traversal_step(g, params, max_tokens, traversal_run(g, params, max_tokens, s, (k - 1) as nat))
    }
}

/// The start of the traversal: every start node queued at depth 0.
pub open spec fn initial_state(starts: Seq<usize>) -> TraversalState {
    TraversalState {
        queue: starts.map_values(|s: usize| (s, 0u32, ReachedVia::Start, None::<PruningDecision>)),
        visited: Set::empty(),
        ordered: Seq::empty(),
        steps: Seq::empty(),
        layers: Seq::empty(),
        total: 0,
        halted: false,
        overflow: false,
    }
}

/// The traversal from `starts` overflows the `u32` total at some point.
pub open spec fn traversal_overflows(
    g: ContextGraph,
    params: PruningParams,
    starts: Seq<usize>,
    max_tokens: Option<u32>,
) -> bool {
    exists|k: nat| #[trigger] traversal_run(g, params, max_tokens, initial_state(starts), k).overflow
}

impl CfResult {
    /// This result reports the traversal state `s`.
    pub open spec fn reports(&self, s: TraversalState) -> bool {
        &&& self.reachable_set@ == s.visited
        &&& self.reachable_nodes_ordered@ == s.ordered
        &&& self.reachable_nodes_by_layer@.map_values(|l: Vec<NodeId>| l@) == s.layers
        &&& self.traversal_steps@ == s.steps
        &&& self.total_context_size == s.total
    }
}


// -----------------------------------------------------------------------------
// Neighbour ordering
// -----------------------------------------------------------------------------

proof fn lemma_insert_by_key(g: ContextGraph, s: Seq<(usize, EdgeKind)>, x: (usize, EdgeKind), j: int)
    requires
        0 <= j <= s.len(),
        j == 0 || !key_after(g, s[j - 1].0, x.0),
        forall|m: int| j <= m < s.len() ==> key_after(g, #[trigger] s[m].0, x.0),
    ensures
        insert_by_key(g, s, x) == s.insert(j, x),
    decreases s.len(),
{
    if s.len() == 0 {
        assert(s.insert(j, x) =~= seq![x]);
    } else if j == s.len() {
        assert(s[j - 1] == s.last());
        assert(s.insert(j, x) =~= s.push(x));
    } else {
        assert(s[s.len() - 1] == s.last());
        let d = s.drop_last();
        assert forall|m: int| j <= m < d.len() implies key_after(g, #[trigger] d[m].0, x.0) by {
            assert(d[m] == s[m]);
        }
        if j > 0 {
            assert(d[j - 1] == s[j - 1]);
        }
        lemma_insert_by_key(g, d, x, j);
        assert(s.insert(j, x) =~= d.insert(j, x).push(s.last()));
    }
}

/// The sort key of every node (see `ContextGraph::sort_key`).
fn node_sort_keys(graph: &ContextGraph) -> (keys: Vec<Vec<char>>)
    requires
        graph.wf(),
    ensures
        keys@.len() == graph.nodes().len(),
        forall|i: int| 0 <= i < keys@.len() ==> #[trigger] keys@[i]@ == graph.sort_key(i),
{
    let n = graph.node_count();
    let mut keys: Vec<Vec<char>> = Vec::new();
    let mut i: usize = 0;
    while i < n
        invariant
            graph.wf(),
            n == graph.nodes().len(),
            i <= n,
            keys@.len() == i,
            forall|j: int| 0 <= j < i ==> #[trigger] keys@[j]@ == graph.sort_key(j),
        decreases n - i,
    {
        let sym = graph.symbol(i);
        let key = match graph.get_node_by_symbol(sym.as_str()) {
            Some(j) => {
                if j == i {
                    str_chars(sym.as_str())
                } else {
                    Vec::new()
                }
            },
            None => Vec::new(),
        };
        keys.push(key);
        i = i + 1;
    }
    keys
}

/// Stable sort of edges by their targets' keys.
fn sort_edges_by_key(items: &Vec<(usize, EdgeKind)>, keys: &Vec<Vec<char>>, Ghost(g): Ghost<ContextGraph>) -> (r: Vec<(usize, EdgeKind)>)
    requires
        forall|i: int| 0 <= i < keys@.len() ==> #[trigger] keys@[i]@ == g.sort_key(i),
        forall|k: int| 0 <= k < items@.len() ==> #[trigger] items@[k].0 < keys@.len(),
    ensures
        r@ == sort_by_key(g, items@),
        forall|k: int| 0 <= k < r@.len() ==> #[trigger] r@[k].0 < keys@.len(),
{
    let mut out: Vec<(usize, EdgeKind)> = Vec::new();
    let mut i: usize = 0;
    while i < items.len()
        invariant
            i <= items@.len(),
            forall|i: int| 0 <= i < keys@.len() ==> #[trigger] keys@[i]@ == g.sort_key(i),
            forall|k: int| 0 <= k < items@.len() ==> #[trigger] items@[k].0 < keys@.len(),
            out@ == sort_by_key(g, items@.take(i as int)),
            forall|k: int| 0 <= k < out@.len() ==> #[trigger] out@[k].0 < keys@.len(),
        decreases items@.len() - i,
    {
        let x = items[i];
        let mut j = out.len();
        while j > 0 && lex_less(keys[x.0].as_slice(), keys[out[j - 1].0].as_slice())
            invariant
                j <= out@.len(),
                x.0 < keys@.len(),
                forall|i: int| 0 <= i < keys@.len() ==> #[trigger] keys@[i]@ == g.sort_key(i),
                forall|k: int| 0 <= k < out@.len() ==> #[trigger] out@[k].0 < keys@.len(),
                forall|m: int| j <= m < out@.len() ==> key_after(g, #[trigger] out@[m].0, x.0),
            decreases j,
        {
            j = j - 1;
        }
        let ghost before = out@;
        proof {
            lemma_insert_by_key(g, out@, x, j as int);
            assert(items@.take(i as int + 1).drop_last() =~= items@.take(i as int));
            assert(items@.take(i as int + 1).last() == x);
        }
        out.insert(j, x);
        proof {
            assert forall|k: int| 0 <= k < out@.len() implies #[trigger] out@[k].0 < keys@.len() by {
                if k < j {
                    assert(out@[k] == before[k]);
                } else if k > j {
                    assert(out@[k] == before[k - 1]);
                }
            }
        }
        i = i + 1;
    }
    assert(items@.take(items@.len() as int) =~= items@);
    out
}

// -----------------------------------------------------------------------------
// Facts about the specification
// -----------------------------------------------------------------------------

proof fn lemma_forward_fold_prefix(
    g: ContextGraph,
    params: PruningParams,
    max_tokens: Option<u32>,
    s: TraversalState,
    depth: u32,
    items: Seq<(usize, EdgeKind)>,
    i: int,
)
    requires
        0 <= i <= items.len(),
    ensures
        forward_fold(g, params, max_tokens, s, depth, items.take(i)).1 ==> forward_fold(
            g,
            params,
            max_tokens,
            s,
            depth,
            items,
        ) == forward_fold(g, params, max_tokens, s, depth, items.take(i)),
        forward_fold(g, params, max_tokens, s, depth, items.take(i)).0.overflow ==> forward_fold(
            g,
            params,
            max_tokens,
            s,
            depth,
            items,
        ).0.overflow,
    decreases items.len(),
{
    if i < items.len() {
        lemma_forward_fold_prefix(g, params, max_tokens, s, depth, items.drop_last(), i);
        assert(items.drop_last().take(i) =~= items.take(i));
    } else {
        assert(items.take(i) =~= items);
    }
}

/// The ids of the graph's nodes.
pub open spec fn node_ids(g: ContextGraph) -> Set<NodeId> {
    g.nodes().map_values(|nd: Node| nd.spec_core().id).to_set()
}

proof fn lemma_id_in_node_ids(g: ContextGraph, i: usize)
    requires
        i < g.nodes().len(),
    ensures
        node_ids(g).contains(node_id_of(g, i)),
{
    let m = g.nodes().map_values(|nd: Node| nd.spec_core().id);
    assert(m[i as int] == node_id_of(g, i));
    assert(m.contains(node_id_of(g, i)));
}

/// Distinct ids of nodes are no more numerous than the nodes.
proof fn lemma_distinct_ids_bound(g: ContextGraph, ids: Seq<NodeId>)
    requires
        ids.no_duplicates(),
        forall|k: int| 0 <= k < ids.len() ==> node_ids(g).contains(#[trigger] ids[k]),
    ensures
        ids.len() <= g.nodes().len(),
{
    let m = g.nodes().map_values(|nd: Node| nd.spec_core().id);
    ids.unique_seq_to_set();
    m.lemma_cardinality_of_set();
    assert(ids.to_set().subset_of(m.to_set()));
    vstd::seq_lib::seq_to_set_is_finite(m);
    vstd::set_lib::lemma_len_subset(ids.to_set(), m.to_set());
}

proof fn lemma_push_to_set(s: Seq<NodeId>, x: NodeId)
    ensures
        s.push(x).to_set() == s.to_set().insert(x),
{
    assert forall|e: NodeId| #[trigger] s.push(x).to_set().contains(e) == s.to_set().insert(x).contains(e) by {
        if s.push(x).contains(e) {
            let i = choose|i: int| 0 <= i < s.push(x).len() && s.push(x)[i] == e;
            if i < s.len() {
                assert(s[i] == e);
                assert(s.contains(e));
            }
        }
        if s.contains(e) {
            let i = choose|i: int| 0 <= i < s.len() && s[i] == e;
            assert(s.push(x)[i] == e);
        }
        if e == x {
            assert(s.push(x)[s.len() as int] == x);
        }
    }
    assert(s.push(x).to_set() =~= s.to_set().insert(x));
}

/// Once the running total has left `u32`, every later state says so.
proof fn lemma_step_keeps_overflow(g: ContextGraph, params: PruningParams, max_tokens: Option<u32>, s: TraversalState)
    requires
        s.overflow,
    ensures
        traversal_step(g, params, max_tokens, s).overflow,
{
    if !is_terminal(s) {
        let item = s.queue[0];
        let cur = item.0;
        let s0 = TraversalState { queue: s.queue.drop_first(), ..s };
        if !s0.visited.contains(node_id_of(g, cur)) {
            let edge = match item.2 {
                ReachedVia::Forward(ek) => Some(ek),
                _ => None,
            };
            let s1 = state_record(s0, node_id_of(g, cur), node_size_of(g, cur), item.1 as int, edge, item.3);
            lemma_forward_fold_prefix(g, params, max_tokens, s1, item.1, sorted_out_edges(g, cur), 0);
            assert(sorted_out_edges(g, cur).take(0) =~= Seq::<(usize, EdgeKind)>::empty());
            lemma_expand_overflow(g, params, max_tokens, s1, cur, item.1, item.2);
        }
    }
}

/// A forward scan that leaves `u32` makes the whole expansion do so.
proof fn lemma_expand_overflow(
    g: ContextGraph,
    params: PruningParams,
    max_tokens: Option<u32>,
    s1: TraversalState,
    cur: usize,
    depth: u32,
    via: ReachedVia,
)
    requires
        forward_fold(g, params, max_tokens, s1, depth, sorted_out_edges(g, cur)).0.overflow,
    ensures
        expand(g, params, max_tokens, s1, cur, depth, via).overflow,
{
    let s2 = forward_fold(g, params, max_tokens, s1, depth, sorted_out_edges(g, cur)).0;
    lemma_reverse_fold_queue_only(g, s2, depth, in_edges_of_kind(g, cur, EdgeKind::Call), ReachedVia::CallIn);
    let s3 = if g.nodes()[cur as int] is Function && spec_call_in_decision(params, g.nodes()[cur as int])
        == PruningDecision::Transparent {
        reverse_fold(g, s2, depth, in_edges_of_kind(g, cur, EdgeKind::Call), ReachedVia::CallIn)
    } else {
        s2
    };
    lemma_reverse_fold_queue_only(g, s3, depth, in_edges_of_kind(g, cur, EdgeKind::Write), ReachedVia::SharedStateWrite);
}

/// Counting a node whose size takes the total past `u32` makes the step leave `u32`.
proof fn lemma_step_overflow_after_record(g: ContextGraph, params: PruningParams, max_tokens: Option<u32>, s: TraversalState)
    requires
        !is_terminal(s),
        !s.visited.contains(node_id_of(g, s.queue[0].0)),
        s.total + node_size_of(g, s.queue[0].0) > u32::MAX,
    ensures
        traversal_step(g, params, max_tokens, s).overflow,
{
    let item = s.queue[0];
    let cur = item.0;
    let s0 = TraversalState { queue: s.queue.drop_first(), ..s };
    let edge = match item.2 {
        ReachedVia::Forward(ek) => Some(ek),
        _ => None,
    };
    let s1 = state_record(s0, node_id_of(g, cur), node_size_of(g, cur), item.1 as int, edge, item.3);
    assert(s1.overflow);
    lemma_forward_fold_prefix(g, params, max_tokens, s1, item.1, sorted_out_edges(g, cur), 0);
    assert(sorted_out_edges(g, cur).take(0) =~= Seq::<(usize, EdgeKind)>::empty());
    lemma_expand_overflow(g, params, max_tokens, s1, cur, item.1, item.2);
}

proof fn lemma_overflow_persists(
    g: ContextGraph,
    params: PruningParams,
    max_tokens: Option<u32>,
    starts: Seq<usize>,
    j: nat,
    k: nat,
)
    requires
        j <= k,
        traversal_run(g, params, max_tokens, initial_state(starts), j).overflow,
    ensures
        traversal_run(g, params, max_tokens, initial_state(starts), k).overflow,
    decreases k,
{
    if j < k {
        lemma_overflow_persists(g, params, max_tokens, starts, j, (k - 1) as nat);
        lemma_step_keeps_overflow(
            g,
            params,
            max_tokens,
            traversal_run(g, params, max_tokens, initial_state(starts), (k - 1) as nat),
        );
    }
}

proof fn lemma_terminal_stays(
    g: ContextGraph,
    params: PruningParams,
    max_tokens: Option<u32>,
    starts: Seq<usize>,
    k: nat,
    j: nat,
)
    requires
        k <= j,
        is_terminal(traversal_run(g, params, max_tokens, initial_state(starts), k)),
    ensures
        traversal_run(g, params, max_tokens, initial_state(starts), j) == traversal_run(
            g,
            params,
            max_tokens,
            initial_state(starts),
            k,
        ),
    decreases j,
{
    if k < j {
        lemma_terminal_stays(g, params, max_tokens, starts, k, (j - 1) as nat);
    }
}

/// A traversal that finishes without its total leaving `u32` never leaves it.
proof fn lemma_finished_without_overflow(
    g: ContextGraph,
    params: PruningParams,
    max_tokens: Option<u32>,
    starts: Seq<usize>,
    k: nat,
)
    requires
        is_terminal(traversal_run(g, params, max_tokens, initial_state(starts), k)),
        !traversal_run(g, params, max_tokens, initial_state(starts), k).overflow,
    ensures
        !traversal_overflows(g, params, starts, max_tokens),
{
    assert forall|j: nat| !(#[trigger] traversal_run(g, params, max_tokens, initial_state(starts), j)).overflow by {
        if j <= k {
            if traversal_run(g, params, max_tokens, initial_state(starts), j).overflow {
                lemma_overflow_persists(g, params, max_tokens, starts, j, k);
            }
        } else {
            lemma_terminal_stays(g, params, max_tokens, starts, k, j);
        }
    }
}

proof fn lemma_insert_by_key_contains(
    g: ContextGraph,
    s: Seq<(usize, EdgeKind)>,
    x: (usize, EdgeKind),
    y: (usize, EdgeKind),
)
    ensures
        insert_by_key(g, s, x).contains(y) <==> s.contains(y) || y == x,
    decreases s.len(),
{
    broadcast use vstd::seq_lib::lemma_seq_contains_after_push;

    if s.len() == 0 {
        assert(seq![x] =~= Seq::<(usize, EdgeKind)>::empty().push(x));
    } else {
        assert(s =~= s.drop_last().push(s.last()));
        if key_after(g, s.last().0, x.0) {
            lemma_insert_by_key_contains(g, s.drop_last(), x, y);
        }
    }
}

proof fn lemma_sort_by_key_contains(g: ContextGraph, s: Seq<(usize, EdgeKind)>, y: (usize, EdgeKind))
    ensures
        sort_by_key(g, s).contains(y) <==> s.contains(y),
    decreases s.len(),
{
    broadcast use vstd::seq_lib::lemma_seq_contains_after_push;

    if s.len() > 0 {
        lemma_sort_by_key_contains(g, s.drop_last(), y);
        lemma_insert_by_key_contains(g, sort_by_key(g, s.drop_last()), s.last(), y);
        assert(s =~= s.drop_last().push(s.last()));
    }
}

/// The edges a traversal follows from `cur` are forward edges.
proof fn lemma_sorted_forward(g: ContextGraph, cur: usize)
    ensures
        forall|k: int|
            0 <= k < sorted_out_edges(g, cur).len() ==> is_forward_kind(#[trigger] sorted_out_edges(g, cur)[k].1),
{
    broadcast use vstd::seq_lib::group_filter_ensures;

    let f = forward_out_edges(g.edges(), cur);
    let s = sorted_out_edges(g, cur);
    assert forall|k: int| 0 <= k < s.len() implies is_forward_kind(#[trigger] s[k].1) by {
        assert(s.contains(s[k]));
        lemma_sort_by_key_contains(g, f, s[k]);
        let m = choose|m: int| 0 <= m < f.len() && f[m] == s[k];
        assert(f[m] == s[k]);
    }
}

// -----------------------------------------------------------------------------
// Executable traversal state

// -----------------------------------------------------------------------------

struct Traversal {
    queue: VecDeque<QueueItem>,
    visited: HashSet<NodeId>,
    ordered: Vec<NodeId>,
    steps: Vec<TraversalStep>,
    layers: Vec<Vec<NodeId>>,
    total: u32,
}

impl Traversal {
    spec fn view_as(&self, halted: bool) -> TraversalState {
        TraversalState {
            queue: self.queue@,
            visited: self.visited@,
            ordered: self.ordered@,
            steps: self.steps@,
            layers: self.layers@.map_values(|l: Vec<NodeId>| l@),
            total: self.total as int,
            halted,
            overflow: false,
        }
    }

    spec fn inv(&self, g: ContextGraph) -> bool {
        &&& self.visited@ == self.ordered@.to_set()
        &&& self.ordered@.no_duplicates()
        &&& forall|k: int| 0 <= k < self.ordered@.len() ==> node_ids(g).contains(#[trigger] self.ordered@[k])
        &&& forall|q: int|
            0 <= q < self.queue@.len() ==> #[trigger] self.queue@[q].0 < g.nodes().len()
                && self.queue@[q].1 <= self.ordered@.len()
    }

    /// Count node `idx` (with id `id`) as reached.
    fn record(
        &mut self,
        id: NodeId,
        size: u32,
        depth: u32,
        edge: Option<EdgeKind>,
        decision: Option<PruningDecision>,
        Ghost(g): Ghost<ContextGraph>,
        Ghost(idx): Ghost<usize>,
    )
        requires
            old(self).inv(g),
            idx < g.nodes().len(),
            node_id_of(g, idx) == id,
            !old(self).visited@.contains(id),
            old(self).total + size <= u32::MAX,
        ensures
            final(self).inv(g),
            final(self).view_as(false) == state_record(
                old(self).view_as(false),
                id,
                size,
                depth as int,
                edge,
                decision,
            ),
    {
        let ghost old_layers = self.layers@.map_values(|l: Vec<NodeId>| l@);
        self.visited.insert(id);
        self.ordered.push(id);
        self.steps.push(TraversalStep { node_id: id, incoming_edge_kind: edge, decision });
        self.total = self.total + size;
        let d = depth as usize;
        let ghost start_len = self.layers@.len();
        let ghost q = self.queue@;
        let ghost vis = self.visited@;
        let ghost ord = self.ordered@;
        let ghost st = self.steps@;
        let ghost tot = self.total;
        while self.layers.len() <= d
            invariant
                self.queue@ == q,
                self.visited@ == vis,
                self.ordered@ == ord,
                self.steps@ == st,
                self.total == tot,
                start_len <= self.layers@.len() <= (if start_len > d { start_len } else { (d + 1) as nat }),
                forall|k: int| 0 <= k < start_len ==> #[trigger] self.layers@[k]@ == old_layers[k],
                forall|k: int| start_len <= k < self.layers@.len() ==> #[trigger] self.layers@[k]@ == Seq::<NodeId>::empty(),
                old_layers.len() == start_len,
            decreases d + 1 - self.layers@.len(),
        {
            self.layers.push(Vec::new());
        }
        let mut layer = Vec::new();
        std::mem::swap(&mut layer, &mut self.layers[d]);
        layer.push(id);
        self.layers.set(d, layer);
        proof {
            lemma_push_to_set(old(self).ordered@, id);
            lemma_id_in_node_ids(g, idx);
            let ext = if old_layers.len() > d {
                old_layers
            } else {
                old_layers + Seq::new((d + 1 - old_layers.len()) as nat, |i: int| Seq::<NodeId>::empty())
            };
            assert(self.layers@.map_values(|l: Vec<NodeId>| l@) =~= ext.update(d as int, ext[d as int].push(id)));
            assert forall|k: int| 0 <= k < self.ordered@.len() implies node_ids(g).contains(#[trigger] self.ordered@[k]) by {
                if k < old(self).ordered@.len() {
                    assert(self.ordered@[k] == old(self).ordered@[k]);
                }
            }
            assert forall|a: int, b: int| 0 <= a < self.ordered@.len() && 0 <= b < self.ordered@.len() && a != b
                implies self.ordered@[a] != self.ordered@[b] by {
                if a < old(self).ordered@.len() && b < old(self).ordered@.len() {
                    assert(self.ordered@[a] == old(self).ordered@[a]);
                    assert(self.ordered@[b] == old(self).ordered@[b]);
                } else if a < old(self).ordered@.len() {
                    assert(old(self).ordered@.to_set().contains(old(self).ordered@[a]));
                } else if b < old(self).ordered@.len() {
                    assert(old(self).ordered@.to_set().contains(old(self).ordered@[b]));
                }
            }
        }
    }
}

/// Follow the forward edges `items` of the node being expanded (at `depth`).
fn forward_scan(
    tr: &mut Traversal,
    graph: &ContextGraph,
    params: &PruningParams,
    max_tokens: Option<u32>,
    source: &Node,
    depth: u32,
    items: &Vec<(usize, EdgeKind)>,
) -> (overflowed: bool)
    requires
        graph.wf(),
        old(tr).inv(*graph),
        (depth as int) < old(tr).ordered@.len(),
        forall|k: int| 0 <= k < items@.len() ==> #[trigger] items@[k].0 < graph.nodes().len(),
        forall|k: int| 0 <= k < items@.len() ==> is_forward_kind(#[trigger] items@[k].1),
    ensures
        final(tr).inv(*graph),
        final(tr).ordered@.len() >= old(tr).ordered@.len(),
        overflowed ==> forward_fold(*graph, *params, max_tokens, old(tr).view_as(false), depth, items@).0.overflow,
        !overflowed ==> final(tr).view_as(false) == forward_fold(
            *graph,
            *params,
            max_tokens,
            old(tr).view_as(false),
            depth,
            items@,
        ).0,
{
    let ghost g = *graph;
    let ghost s0 = tr.view_as(false);
    let mut i: usize = 0;
    proof {
        assert(items@.take(0) =~= Seq::<(usize, EdgeKind)>::empty());
    }
    while i < items.len()
        invariant
            graph.wf(),
            g == *graph,
            s0 == old(tr).view_as(false),
            i <= items@.len(),
            tr.inv(g),
            tr.ordered@.len() >= old(tr).ordered@.len(),
            (depth as int) < tr.ordered@.len(),
            forall|k: int| 0 <= k < items@.len() ==> #[trigger] items@[k].0 < graph.nodes().len(),
            forall|k: int| 0 <= k < items@.len() ==> is_forward_kind(#[trigger] items@[k].1),
            forward_fold(g, *params, max_tokens, s0, depth, items@.take(i as int)) == (
            tr.view_as(false),
            false,
            ),
        decreases items@.len() - i,
    {
        proof {
            lemma_forward_fold_prefix(g, *params, max_tokens, s0, depth, items@, i as int + 1);
            assert(items@.take(i as int + 1).drop_last() =~= items@.take(i as int));
            assert(items@.take(i as int + 1).last() == items@[i as int]);
            g.lemma_wf_node_bound();
            lemma_distinct_ids_bound(g, tr.ordered@);
        }
        let (nb, ek) = items[i];
        let target = graph.node(nb);
        let d = evaluate(params, source, target, &ek, graph);
        match d {
            PruningDecision::Transparent => {
                tr.queue.push_back((nb, depth + 1, ReachedVia::Forward(ek), Some(d)));
            },
            PruningDecision::Boundary => {
                let id = target.node_core().id;
                if !tr.visited.contains(&id) {
                    let size = target.node_core().context_size;
                    if (tr.total as u64) + (size as u64) > (u32::MAX as u64) {
                        proof {
                            let pre = forward_fold(g, *params, max_tokens, s0, depth, items@.take(i as int));
                            let nxt = forward_fold(g, *params, max_tokens, s0, depth, items@.take(i as int + 1));
                            assert(nxt == forward_one(g, *params, max_tokens, pre.0, depth, nb, ek));
                            assert(nxt.0.overflow);
                        }
                        return true;
                    }
                    let stop = match max_tokens {
                        Some(l) => (tr.total as u64) + (size as u64) > (l as u64),
                        None => false,
                    };
                    if stop {
                        proof {
                            let pre = forward_fold(g, *params, max_tokens, s0, depth, items@.take(i as int));
                            let nxt = forward_fold(g, *params, max_tokens, s0, depth, items@.take(i as int + 1));
                            assert(nxt == forward_one(g, *params, max_tokens, pre.0, depth, nb, ek));
                            assert(nxt.1);
                            assert(nxt.0 == tr.view_as(false));
                            lemma_forward_fold_prefix(g, *params, max_tokens, s0, depth, items@, i as int + 1);
                            assert(forward_fold(g, *params, max_tokens, s0, depth, items@) == nxt);
                        }
                        return false;
                    }
                    tr.record(id, size, depth + 1, Some(ek), Some(d), Ghost(g), Ghost(nb));
                }
            },
        }
        i = i + 1;
    }
    proof {
        assert(items@.take(items@.len() as int) =~= items@);
    }
    false
}

/// Queue the not yet visited sources of `items` at `depth + 1`, reached via `via`.
fn push_unvisited(
    tr: &mut Traversal,
    graph: &ContextGraph,
    depth: u32,
    items: &Vec<(usize, EdgeKind)>,
    via: ReachedVia,
)
    requires
        graph.wf(),
        old(tr).inv(*graph),
        (depth as int) < old(tr).ordered@.len(),
        forall|k: int| 0 <= k < items@.len() ==> #[trigger] items@[k].0 < graph.nodes().len(),
    ensures
        final(tr).inv(*graph),
        final(tr).ordered@ == old(tr).ordered@,
        final(tr).view_as(false) == reverse_fold(*graph, old(tr).view_as(false), depth, items@, via),
{
    let ghost g = *graph;
    let ghost s0 = tr.view_as(false);
    let mut i: usize = 0;
    proof {
        assert(items@.take(0) =~= Seq::<(usize, EdgeKind)>::empty());
        g.lemma_wf_node_bound();
        lemma_distinct_ids_bound(g, tr.ordered@);
    }
    while i < items.len()
        invariant
            graph.wf(),
            g == *graph,
            i <= items@.len(),
            tr.inv(g),
            (depth as int) < tr.ordered@.len(),
            tr.ordered@ == old(tr).ordered@,
            tr.ordered@.len() <= u32::MAX,
            forall|k: int| 0 <= k < items@.len() ==> #[trigger] items@[k].0 < graph.nodes().len(),
            reverse_fold(g, s0, depth, items@.take(i as int), via) == tr.view_as(false),
        decreases items@.len() - i,
    {
        proof {
            assert(items@.take(i as int + 1).drop_last() =~= items@.take(i as int));
            assert(items@.take(i as int + 1).last() == items@[i as int]);
        }
        let (src, _) = items[i];
        let id = graph.node(src).node_core().id;
        if !tr.visited.contains(&id) {
            let ghost q0 = tr.queue@;
            tr.queue.push_back((src, depth + 1, via, None));
            proof {
                assert forall|q: int| 0 <= q < tr.queue@.len() implies #[trigger] tr.queue@[q].0
                    < g.nodes().len() && tr.queue@[q].1 <= tr.ordered@.len() by {
                    if q < q0.len() {
                        assert(tr.queue@[q] == q0[q]);
                    }
                }
            }
        }
        i = i + 1;
    }
    proof {
        assert(items@.take(items@.len() as int) =~= items@);
    }
}

proof fn lemma_reverse_fold_queue_only(
    g: ContextGraph,
    s: TraversalState,
    depth: u32,
    items: Seq<(usize, EdgeKind)>,
    via: ReachedVia,
)
    ensures
        ({
            let r = reverse_fold(g, s, depth, items, via);
            &&& r.visited == s.visited
            &&& r.ordered == s.ordered
            &&& r.steps == s.steps
            &&& r.layers == s.layers
            &&& r.total == s.total
            &&& r.halted == s.halted
            &&& r.overflow == s.overflow
        }),
    decreases items.len(),
{
    if items.len() > 0 {
        lemma_reverse_fold_queue_only(g, s, depth, items.drop_last(), via);
    }
}

/// CF Solver - computes the Context Footprint for given start nodes.
///
/// Holds the graph and the pruning parameters (doc_threshold + mode).
pub struct CfSolver {
    graph: Arc<ContextGraph>,
    params: PruningParams,
}

impl CfSolver {
    pub closed spec fn graph_view(&self) -> ContextGraph {
        *self.graph
    }

    pub closed spec fn params_view(&self) -> PruningParams {
        self.params
    }

    pub fn new(graph: Arc<ContextGraph>, params: PruningParams) -> (r: Self)
        ensures
            r.graph_view() == *graph,
            r.params_view() == params,
    {
        Self { graph, params }
    }

    /// Compute CF for a given set of starting nodes (full result with layers, etc.).
    ///
    /// The result reports the traversal (`traversal_step`) run from the start nodes until its
    /// queue is empty or the token limit stops it.
    pub fn compute_cf(&self, starts: &[usize], max_tokens: Option<u32>) -> (r: CfResult)
        requires
            self.graph_view().wf(),
            forall|i: int| 0 <= i < starts@.len() ==> #[trigger] starts@[i] < self.graph_view().nodes().len(),
            !traversal_overflows(self.graph_view(), self.params_view(), starts@, max_tokens),
        ensures
            exists|k: nat|
                {
                    let f = #[trigger] traversal_run(
                        self.graph_view(),
                        self.params_view(),
                        max_tokens,
                        initial_state(starts@),
                        k,
                    );
                    is_terminal(f) && r.reports(f)
                },
    {
        self.compute_cf_checked(starts, max_tokens).unwrap()
    }

    /// Compute CF as `compute_cf` does, or `None` when the running total of the traversal
    /// would leave `u32`.
    pub fn compute_cf_checked(&self, starts: &[usize], max_tokens: Option<u32>) -> (r: Option<CfResult>)
        requires
            self.graph_view().wf(),
            forall|i: int| 0 <= i < starts@.len() ==> #[trigger] starts@[i] < self.graph_view().nodes().len(),
        ensures
            r is None <==> traversal_overflows(self.graph_view(), self.params_view(), starts@, max_tokens),
            r matches Some(res) ==> exists|k: nat|
                {
                    let f = #[trigger] traversal_run(
                        self.graph_view(),
                        self.params_view(),
                        max_tokens,
                        initial_state(starts@),
                        k,
                    );
                    is_terminal(f) && res.reports(f)
                },
    {
        let graph: &ContextGraph = &*self.graph;
        let params = &self.params;
        let ghost g = *graph;
        let ghost p = *params;
        let ghost init = initial_state(starts@);
        let keys = node_sort_keys(graph);
        let mut tr = Traversal {
            queue: VecDeque::new(),
            visited: HashSet::new(),
            ordered: Vec::new(),
            steps: Vec::new(),
            layers: Vec::new(),
            total: 0,
        };
        let mut i: usize = 0;
        while i < starts.len()
            invariant
                i <= starts@.len(),
                forall|j: int| 0 <= j < starts@.len() ==> #[trigger] starts@[j] < g.nodes().len(),
                tr.queue@ == starts@.take(i as int).map_values(
                    |s: usize| (s, 0u32, ReachedVia::Start, None::<PruningDecision>),
                ),
                tr.visited@ == Set::<NodeId>::empty(),
                tr.ordered@ == Seq::<NodeId>::empty(),
                tr.steps@ == Seq::<TraversalStep>::empty(),
                tr.layers@ == Seq::<Vec<NodeId>>::empty(),
                tr.total == 0,
            decreases starts@.len() - i,
        {
            tr.queue.push_back((starts[i], 0, ReachedVia::Start, None));
            proof {
                assert(starts@.take(i as int + 1).map_values(
                    |s: usize| (s, 0u32, ReachedVia::Start, None::<PruningDecision>),
                ) =~= starts@.take(i as int).map_values(
                    |s: usize| (s, 0u32, ReachedVia::Start, None::<PruningDecision>),
                ).push((starts@[i as int], 0u32, ReachedVia::Start, None::<PruningDecision>)));
            }
            i = i + 1;
        }
        proof {
            assert(starts@.take(starts@.len() as int) =~= starts@);
            assert(tr.layers@.map_values(|l: Vec<NodeId>| l@) =~= Seq::<Seq<NodeId>>::empty());
            assert(tr.ordered@.to_set() =~= Set::<NodeId>::empty());
            assert(tr.view_as(false) == init);
            assert forall|q: int| 0 <= q < tr.queue@.len() implies #[trigger] tr.queue@[q].0 < g.nodes().len()
                && tr.queue@[q].1 <= tr.ordered@.len() by {
                assert(tr.queue@[q].0 == starts@[q]);
            }
            assert(traversal_run(g, p, max_tokens, init, 0) == init);
        }
        let ghost mut k: nat = 0;
        loop
            invariant_except_break
                tr.view_as(false) == traversal_run(g, p, max_tokens, init, k),
            invariant
                graph.wf(),
                g == *graph,
                p == *params,
                g == self.graph_view(),
                p == self.params_view(),
                init == initial_state(starts@),
                keys@.len() == g.nodes().len(),
                forall|i: int| 0 <= i < keys@.len() ==> #[trigger] keys@[i]@ == g.sort_key(i),
                tr.inv(g),
            ensures
                is_terminal(traversal_run(g, p, max_tokens, init, k)),
                tr.view_as(traversal_run(g, p, max_tokens, init, k).halted) == traversal_run(
                    g,
                    p,
                    max_tokens,
                    init,
                    k,
                ),
            decreases g.nodes().len() - tr.ordered@.len(), tr.queue@.len(),
        {
            let ghost s = traversal_run(g, p, max_tokens, init, k);
            proof {
                g.lemma_wf_node_bound();
                lemma_distinct_ids_bound(g, tr.ordered@);
                assert(traversal_run(g, p, max_tokens, init, k + 1) == traversal_step(g, p, max_tokens, s));
            }
            let ghost before = tr.queue@;
            let item = tr.queue.pop_front();
            let (cur, depth, via, dec) = match item {
                Some(it) => it,
                None => {
                    break;
                },
            };
            let ghost s0 = TraversalState { queue: s.queue.drop_first(), ..s };
            proof {
                assert(before[0] == (cur, depth, via, dec));
                assert(tr.queue@ == before.drop_first());
                assert(tr.view_as(false) == s0);
                assert(cur < g.nodes().len() && depth <= tr.ordered@.len());
                assert forall|q: int| 0 <= q < tr.queue@.len() implies #[trigger] tr.queue@[q].0 < g.nodes().len()
                    && tr.queue@[q].1 <= tr.ordered@.len() by {
                    assert(tr.queue@[q] == before[q + 1]);
                }
            }
            let node = graph.node(cur);
            let id = node.node_core().id;
            if tr.visited.contains(&id) {
                proof {
                    k = k + 1;
                }
                continue;
            }
            let size = node.node_core().context_size;
            let edge = match via {
                ReachedVia::Forward(ek) => Some(ek),
                _ => None,
            };
            let ghost s1 = state_record(s0, id, size, depth as int, edge, dec);
            if (tr.total as u64) + (size as u64) > (u32::MAX as u64) {
                proof {
                    assert(s1.overflow);
                    lemma_step_overflow_after_record(g, p, max_tokens, s);
                    assert(traversal_run(g, p, max_tokens, init, k + 1).overflow);
                    assert(g == self.graph_view() && p == self.params_view());
                    assert(traversal_overflows(self.graph_view(), self.params_view(), starts@, max_tokens));
                }
                return None;
            }
            tr.record(id, size, depth, edge, dec, Ghost(g), Ghost(cur));
            match max_tokens {
                Some(l) => {
                    if tr.total >= l {
                        proof {
                            k = k + 1;
                        }
                        break;
                    }
                },
                None => {},
            }
            if via == ReachedVia::CallIn {
                proof {
                    k = k + 1;
                    lemma_distinct_ids_bound(g, tr.ordered@);
                }
                continue;
            }
            let out = graph.forward_edges(cur);
            let sorted = sort_edges_by_key(&out, &keys, Ghost(g));
            proof {
                lemma_sorted_forward(g, cur);
            }
            let overflowed = forward_scan(&mut tr, graph, params, max_tokens, node, depth, &sorted);
            if overflowed {
                proof {
                    lemma_expand_overflow(g, p, max_tokens, s1, cur, depth, via);
                    assert(traversal_run(g, p, max_tokens, init, k + 1).overflow);
                    assert(g == self.graph_view() && p == self.params_view());
                    assert(traversal_overflows(self.graph_view(), self.params_view(), starts@, max_tokens));
                }
                return None;
            }
            let is_function = match node {
                Node::Function(_) => true,
                Node::Variable(_) => false,
            };
            if is_function && call_in_source_decision(params, node) == PruningDecision::Transparent {
                let callers = graph.incoming_edges(cur, Some(EdgeKind::Call));
                assert(callers@ == in_edges_of_kind(g, cur, EdgeKind::Call));
                push_unvisited(&mut tr, graph, depth, &callers, ReachedVia::CallIn);
            }
            let is_mutable_variable = match node {
                Node::Variable(v) => v.mutability == Mutability::Mutable,
                Node::Function(_) => false,
            };
            if is_mutable_variable && via == ReachedVia::Forward(EdgeKind::Read) {
                let writers = graph.incoming_edges(cur, Some(EdgeKind::Write));
                assert(writers@ == in_edges_of_kind(g, cur, EdgeKind::Write));
                push_unvisited(&mut tr, graph, depth, &writers, ReachedVia::SharedStateWrite);
            }
            proof {
                k = k + 1;
                lemma_distinct_ids_bound(g, tr.ordered@);
            }
            match max_tokens {
                Some(l) => {
                    if tr.total >= l {
                        break;
                    }
                },
                None => {},
            }
        }
        proof {
            let f = traversal_run(g, p, max_tokens, init, k);
            assert(tr.layers@.map_values(|l: Vec<NodeId>| l@) == f.layers);
            lemma_finished_without_overflow(g, p, max_tokens, starts@, k);
            assert(g == self.graph_view() && p == self.params_view());
        }
        let res = CfResult {
            reachable_set: tr.visited,
            reachable_nodes_ordered: tr.ordered,
            reachable_nodes_by_layer: tr.layers,
            traversal_steps: tr.steps,
            total_context_size: tr.total,
        };
        proof {
            let f = traversal_run(g, p, max_tokens, init, k);
            assert(is_terminal(f) && res.reports(f));
        }
        Some(res)
    }

    /// Compute the CF total context size for a single start node: the total that
    /// `compute_cf(&[start], None)` reports, or `u32::MAX` when that total would leave `u32`.
    /// No traversal order or layering is handed out; there is no token limit.
    pub fn compute_cf_total(&self, start: usize) -> (total: u32)
        requires
            self.graph_view().wf(),
            start < self.graph_view().nodes().len(),
        ensures
            traversal_overflows(self.graph_view(), self.params_view(), seq![start], None) ==> total
                == u32::MAX,
            !traversal_overflows(self.graph_view(), self.params_view(), seq![start], None) ==> exists|k: nat|
                {
                    let f = #[trigger] traversal_run(
                        self.graph_view(),
                        self.params_view(),
                        None,
                        initial_state(seq![start]),
                        k,
                    );
                    is_terminal(f) && total == f.total
                },
    {
        let starts = vec![start];
        assert(starts@ == seq![start]);
        match self.compute_cf_checked(starts.as_slice(), None) {
            Some(r) => r.total_context_size,
            None => u32::MAX,
        }
    }
}


// -----------------------------------------------------------------------------
// Laws of the traversal
// -----------------------------------------------------------------------------

/// The bookkeeping of a traversal state agrees with itself: the visited set is the set of
/// counted nodes, each counted once, with one step per counted node; and the traversal only
/// halts once the token limit is reached.
pub open spec fn state_consistent(max_tokens: Option<u32>, s: TraversalState) -> bool {
    &&& s.visited == s.ordered.to_set()
    &&& s.ordered.no_duplicates()
    &&& s.steps.len() == s.ordered.len()
    &&& forall|i: int| 0 <= i < s.steps.len() ==> #[trigger] s.steps[i].node_id == s.ordered[i]
    &&& layers_multiset(s.layers) == s.ordered.to_multiset()
    &&& s.halted ==> limit_reached(max_tokens, s.total)
}

/// The nodes of all the layers, counted with multiplicity.
pub open spec fn layers_multiset(layers: Seq<Seq<NodeId>>) -> Multiset<NodeId>
    decreases layers.len(),
{
    if layers.len() == 0 {
        Multiset::empty()
    } else {
        layers_multiset(layers.drop_last()).add(layers.last().to_multiset())
    }
}

proof fn lemma_layers_multiset_update(layers: Seq<Seq<NodeId>>, d: int, id: NodeId)
    requires
        0 <= d < layers.len(),
    ensures
        layers_multiset(layers.update(d, layers[d].push(id))) == layers_multiset(layers).insert(id),
    decreases layers.len(),
{
    broadcast use vstd::seq_lib::group_to_multiset_ensures;

    let u = layers.update(d, layers[d].push(id));
    if d == layers.len() - 1 {
        assert(u.drop_last() =~= layers.drop_last());
        assert(layers_multiset(u) =~= layers_multiset(layers).insert(id));
    } else {
        assert(u.drop_last() =~= layers.drop_last().update(d, layers[d].push(id)));
        lemma_layers_multiset_update(layers.drop_last(), d, id);
        assert(layers_multiset(u) =~= layers_multiset(layers).insert(id));
    }
}

proof fn lemma_layers_multiset_empties(layers: Seq<Seq<NodeId>>, n: nat)
    ensures
        layers_multiset(layers + Seq::new(n, |i: int| Seq::<NodeId>::empty())) == layers_multiset(layers),
    decreases n,
{
    broadcast use vstd::seq_lib::group_to_multiset_ensures;

    let ext = layers + Seq::new(n, |i: int| Seq::<NodeId>::empty());
    if n == 0 {
        assert(ext =~= layers);
    } else {
        let shorter = layers + Seq::new((n - 1) as nat, |i: int| Seq::<NodeId>::empty());
        assert(ext.drop_last() =~= shorter);
        lemma_layers_multiset_empties(layers, (n - 1) as nat);
        assert(ext.last() =~= Seq::<NodeId>::empty());
        assert(layers_multiset(ext) =~= layers_multiset(shorter));
    }
}

proof fn lemma_layers_add(layers: Seq<Seq<NodeId>>, depth: int, id: NodeId)
    requires
        0 <= depth,
    ensures
        layers_multiset(layers_add(layers, depth, id)) == layers_multiset(layers).insert(id),
{
    if layers.len() <= depth {
        lemma_layers_multiset_empties(layers, (depth + 1 - layers.len()) as nat);
    }
    let ext = if layers.len() > depth {
        layers
    } else {
        layers + Seq::new((depth + 1 - layers.len()) as nat, |i: int| Seq::<NodeId>::empty())
    };
    lemma_layers_multiset_update(ext, depth, id);
}

/// `t` extends `s`: nothing counted is forgotten.
pub open spec fn extends(s: TraversalState, t: TraversalState) -> bool {
    &&& s.visited.subset_of(t.visited)
    &&& s.ordered.is_prefix_of(t.ordered)
}

proof fn lemma_record_consistent(
    max_tokens: Option<u32>,
    s: TraversalState,
    id: NodeId,
    size: u32,
    depth: int,
    edge: Option<EdgeKind>,
    decision: Option<PruningDecision>,
)
    requires
        state_consistent(max_tokens, s),
        !s.visited.contains(id),
        !s.halted,
        0 <= depth,
    ensures
        state_consistent(max_tokens, state_record(s, id, size, depth, edge, decision)),
        extends(s, state_record(s, id, size, depth, edge, decision)),
        !state_record(s, id, size, depth, edge, decision).halted,
        state_record(s, id, size, depth, edge, decision).visited.contains(id),
{
    let t = state_record(s, id, size, depth, edge, decision);
    lemma_push_to_set(s.ordered, id);
    lemma_layers_add(s.layers, depth, id);
    s.ordered.to_multiset_ensures();
    assert(!s.ordered.contains(id));
    assert forall|a: int, b: int| 0 <= a < b < t.ordered.len() implies t.ordered[a] != t.ordered[b] by {
        if b == s.ordered.len() {
            assert(s.ordered.contains(s.ordered[a]));
        }
    }
    assert forall|i: int| 0 <= i < t.steps.len() implies #[trigger] t.steps[i].node_id == t.ordered[i] by {
        if i < s.steps.len() {
            assert(t.steps[i] == s.steps[i]);
        }
    }
    assert(s.ordered.is_prefix_of(t.ordered)) by {
        assert(t.ordered.subrange(0, s.ordered.len() as int) =~= s.ordered);
    }
}

proof fn lemma_forward_fold_consistent(
    g: ContextGraph,
    params: PruningParams,
    max_tokens: Option<u32>,
    s: TraversalState,
    depth: u32,
    items: Seq<(usize, EdgeKind)>,
)
    requires
        state_consistent(max_tokens, s),
        !s.halted,
    ensures
        state_consistent(max_tokens, forward_fold(g, params, max_tokens, s, depth, items).0),
        extends(s, forward_fold(g, params, max_tokens, s, depth, items).0),
        !forward_fold(g, params, max_tokens, s, depth, items).0.halted,
    decreases items.len(),
{
    if items.len() > 0 {
        lemma_forward_fold_consistent(g, params, max_tokens, s, depth, items.drop_last());
        let prev = forward_fold(g, params, max_tokens, s, depth, items.drop_last());
        if !prev.1 {
            let nb = items.last().0;
            let ek = items.last().1;
            let t = prev.0;
            let id = node_id_of(g, nb);
            let d = spec_evaluate(params, g.nodes()[nb as int], ek, g.types());
            if d != PruningDecision::Transparent && !t.visited.contains(id) && !(max_tokens is Some
                && t.total + node_size_of(g, nb) > max_tokens->0) {
                lemma_record_consistent(
                    max_tokens,
                    t,
                    id,
                    node_size_of(g, nb),
                    depth + 1,
                    Some(ek),
                    Some(d),
                );
            }
            let r = forward_fold(g, params, max_tokens, s, depth, items).0;
            assert(extends(t, r));
            assert(s.ordered.is_prefix_of(r.ordered)) by {
                assert(r.ordered.subrange(0, s.ordered.len() as int) =~= t.ordered.subrange(
                    0,
                    s.ordered.len() as int,
                ));
            }
        }
    }
}

proof fn lemma_reverse_fold_unchanged(
    g: ContextGraph,
    s: TraversalState,
    depth: u32,
    items: Seq<(usize, EdgeKind)>,
    via: ReachedVia,
)
    ensures
        ({
            let t = reverse_fold(g, s, depth, items, via);
            &&& t.visited == s.visited
            &&& t.ordered == s.ordered
            &&& t.steps == s.steps
            &&& t.layers == s.layers
            &&& t.total == s.total
            &&& t.halted == s.halted
        }),
    decreases items.len(),
{
    if items.len() > 0 {
        lemma_reverse_fold_unchanged(g, s, depth, items.drop_last(), via);
    }
}

proof fn lemma_step_consistent(
    g: ContextGraph,
    params: PruningParams,
    max_tokens: Option<u32>,
    s: TraversalState,
)
    requires
        state_consistent(max_tokens, s),
    ensures
        state_consistent(max_tokens, traversal_step(g, params, max_tokens, s)),
        extends(s, traversal_step(g, params, max_tokens, s)),
{
    if !is_terminal(s) {
        let item = s.queue[0];
        let cur = item.0;
        let depth = item.1;
        let via = item.2;
        let s0 = TraversalState { queue: s.queue.drop_first(), ..s };
        let id = node_id_of(g, cur);
        if !s0.visited.contains(id) {
            let edge = match via {
                ReachedVia::Forward(ek) => Some(ek),
                _ => None,
            };
            lemma_record_consistent(max_tokens, s0, id, node_size_of(g, cur), depth as int, edge, item.3);
            let s1 = state_record(s0, id, node_size_of(g, cur), depth as int, edge, item.3);
            if !limit_reached(max_tokens, s1.total) && via != ReachedVia::CallIn {
                lemma_forward_fold_consistent(g, params, max_tokens, s1, depth, sorted_out_edges(g, cur));
                let s2 = forward_fold(g, params, max_tokens, s1, depth, sorted_out_edges(g, cur)).0;
                lemma_reverse_fold_unchanged(g, s2, depth, in_edges_of_kind(g, cur, EdgeKind::Call), ReachedVia::CallIn);
                let node = g.nodes()[cur as int];
                let s3 = if node is Function && spec_call_in_decision(params, node)
                    == PruningDecision::Transparent {
                    reverse_fold(g, s2, depth, in_edges_of_kind(g, cur, EdgeKind::Call), ReachedVia::CallIn)
                } else {
                    s2
                };
                lemma_reverse_fold_unchanged(g, s3, depth, in_edges_of_kind(g, cur, EdgeKind::Write), ReachedVia::SharedStateWrite);
                let r = traversal_step(g, params, max_tokens, s);
                assert(r.ordered == s2.ordered && r.visited == s2.visited);
                assert(s.ordered.is_prefix_of(r.ordered)) by {
                    assert(r.ordered.subrange(0, s.ordered.len() as int) =~= s1.ordered.subrange(
                        0,
                        s.ordered.len() as int,
                    ));
                }
            }
        }
    }
}

proof fn lemma_run_consistent(
    g: ContextGraph,
    params: PruningParams,
    max_tokens: Option<u32>,
    starts: Seq<usize>,
    k: nat,
)
    ensures
        state_consistent(max_tokens, traversal_run(g, params, max_tokens, initial_state(starts), k)),
        forall|j: nat| j <= k ==> extends(
            #[trigger] traversal_run(g, params, max_tokens, initial_state(starts), j),
            traversal_run(g, params, max_tokens, initial_state(starts), k),
        ),
    decreases k,
{
    let init = initial_state(starts);
    if k == 0 {
        assert(init.ordered.to_set() =~= Set::<NodeId>::empty());
        init.ordered.to_multiset_ensures();
        assert(init.ordered.to_multiset() =~= Multiset::<NodeId>::empty());
        assert(init.ordered.is_prefix_of(init.ordered)) by {
            assert(init.ordered.subrange(0, 0) =~= init.ordered);
        }
    } else {
        lemma_run_consistent(g, params, max_tokens, starts, (k - 1) as nat);
        let prev = traversal_run(g, params, max_tokens, init, (k - 1) as nat);
        lemma_step_consistent(g, params, max_tokens, prev);
        let cur = traversal_run(g, params, max_tokens, init, k);
        assert forall|j: nat| j <= k implies extends(
            #[trigger] traversal_run(g, params, max_tokens, init, j),
            cur,
        ) by {
            let sj = traversal_run(g, params, max_tokens, init, j);
            if j == k {
                assert(sj.ordered.subrange(0, sj.ordered.len() as int) =~= sj.ordered);
            } else {
                assert(extends(sj, prev));
                assert(sj.ordered.is_prefix_of(cur.ordered)) by {
                    assert(cur.ordered.subrange(0, sj.ordered.len() as int) =~= prev.ordered.subrange(
                        0,
                        sj.ordered.len() as int,
                    ));
                }
            }
        }
    }
}

/// Every state of the traversal is consistent: the reachable set is exactly the set of the
/// nodes listed in traversal order, each listed once, with one traversal step per listed node;
/// the layers together hold exactly the listed nodes; and the traversal halts early only once
/// the running total has reached the token limit.
pub proof fn law_traversal_consistent(
    g: ContextGraph,
    params: PruningParams,
    max_tokens: Option<u32>,
    starts: Seq<usize>,
    k: nat,
)
    ensures
        state_consistent(max_tokens, traversal_run(g, params, max_tokens, initial_state(starts), k)),
{
    lemma_run_consistent(g, params, max_tokens, starts, k);
}

/// Later states extend earlier ones: once counted, a node stays counted, in the same place of
/// the traversal order.
pub proof fn law_traversal_monotone(
    g: ContextGraph,
    params: PruningParams,
    max_tokens: Option<u32>,
    starts: Seq<usize>,
    j: nat,
    k: nat,
)
    requires
        j <= k,
    ensures
        extends(
            traversal_run(g, params, max_tokens, initial_state(starts), j),
            traversal_run(g, params, max_tokens, initial_state(starts), k),
        ),
{
    lemma_run_consistent(g, params, max_tokens, starts, k);
    assert(extends(
        traversal_run(g, params, max_tokens, initial_state(starts), j),
        traversal_run(g, params, max_tokens, initial_state(starts), k),
    ));
}

/// The first start node always counts: in every finished traversal from a non-empty list of
/// start nodes, it is the first node of the traversal order (so it is in the reachable set),
/// whatever the pruning and the token limit.
pub proof fn law_first_start_reached(
    g: ContextGraph,
    params: PruningParams,
    max_tokens: Option<u32>,
    starts: Seq<usize>,
    k: nat,
)
    requires
        starts.len() > 0,
        is_terminal(traversal_run(g, params, max_tokens, initial_state(starts), k)),
    ensures
        ({
            let f = traversal_run(g, params, max_tokens, initial_state(starts), k);
            &&& f.ordered.len() > 0
            &&& f.ordered[0] == node_id_of(g, starts[0])
            &&& f.visited.contains(node_id_of(g, starts[0]))
        }),
{
    let init = initial_state(starts);
    assert(init.queue.len() > 0);
    assert(!is_terminal(init));
    assert(k > 0);
    let s1 = traversal_run(g, params, max_tokens, init, 1);
    assert(traversal_run(g, params, max_tokens, init, 0) == init);
    assert(init.queue[0].0 == starts[0]);
    let id = node_id_of(g, starts[0]);
    let s0 = TraversalState { queue: init.queue.drop_first(), ..init };
    lemma_run_consistent(g, params, max_tokens, starts, 0);
    assert(state_consistent(max_tokens, s0));
    assert(!s0.visited.contains(id));
    lemma_record_consistent(max_tokens, s0, id, node_size_of(g, starts[0]), 0, None, None);
    let r0 = state_record(s0, id, node_size_of(g, starts[0]), 0, None, None);
    assert(r0.ordered =~= seq![id]);
    assert(r0.ordered.is_prefix_of(s1.ordered)) by {
        if !limit_reached(max_tokens, r0.total) && init.queue[0].2 != ReachedVia::CallIn {
            lemma_forward_fold_consistent(g, params, max_tokens, r0, 0, sorted_out_edges(g, starts[0]));
            let s2 = forward_fold(g, params, max_tokens, r0, 0, sorted_out_edges(g, starts[0])).0;
            lemma_reverse_fold_unchanged(g, s2, 0, in_edges_of_kind(g, starts[0], EdgeKind::Call), ReachedVia::CallIn);
            let s3 = if g.nodes()[starts[0] as int] is Function && spec_call_in_decision(params, g.nodes()[starts[0] as int])
                == PruningDecision::Transparent {
                reverse_fold(g, s2, 0, in_edges_of_kind(g, starts[0], EdgeKind::Call), ReachedVia::CallIn)
            } else {
                s2
            };
            lemma_reverse_fold_unchanged(g, s3, 0, in_edges_of_kind(g, starts[0], EdgeKind::Write), ReachedVia::SharedStateWrite);
            assert(s1.ordered == s2.ordered);
        } else {
            assert(s1.ordered == r0.ordered);
            assert(r0.ordered.subrange(0, r0.ordered.len() as int) =~= r0.ordered);
        }
    }
    lemma_run_consistent(g, params, max_tokens, starts, k);
    let f = traversal_run(g, params, max_tokens, init, k);
    assert(extends(s1, f));
    assert(f.ordered[0] == s1.ordered[0]);
    assert(s1.ordered[0] == id);
    assert(f.ordered.to_set().contains(id)) by {
        assert(f.ordered.contains(id));
    }
}

/// Without a token limit the traversal never halts early: a finished traversal has emptied
/// its queue.
pub proof fn law_no_limit_runs_to_completion(
    g: ContextGraph,
    params: PruningParams,
    starts: Seq<usize>,
    k: nat,
)
    requires
        is_terminal(traversal_run(g, params, None, initial_state(starts), k)),
    ensures
        traversal_run(g, params, None, initial_state(starts), k).queue.len() == 0,
        !traversal_run(g, params, None, initial_state(starts), k).halted,
{
    lemma_run_consistent(g, params, None, starts, k);
}

/// Node ids name the nodes one to one.
pub open spec fn ids_unique(g: ContextGraph) -> bool {
    forall|i: usize, j: usize|
        #![trigger node_id_of(g, i), node_id_of(g, j)]
        i < g.nodes().len() && j < g.nodes().len() && i != j ==> node_id_of(g, i) != node_id_of(g, j)
}

/// The context size of the node whose id is `id`.
pub open spec fn size_of_id(g: ContextGraph, id: NodeId) -> int {
    node_size_of(g, choose|i: usize| i < g.nodes().len() && node_id_of(g, i) == id) as int
}

/// The sum of the context sizes of the nodes with the ids `ids`.
pub open spec fn sizes_sum(g: ContextGraph, ids: Seq<NodeId>) -> int
    decreases ids.len(),
{
    if ids.len() == 0 {
        0
    } else {
        sizes_sum(g, ids.drop_last()) + size_of_id(g, ids.last())
    }
}

/// The running total is the sum of the counted sizes, and every queued node is in the graph.
spec fn total_matches(g: ContextGraph, s: TraversalState) -> bool {
    &&& s.total == sizes_sum(g, s.ordered)
    &&& forall|q: int| 0 <= q < s.queue.len() ==> #[trigger] s.queue[q].0 < g.nodes().len()
}

spec fn items_in_graph(g: ContextGraph, items: Seq<(usize, EdgeKind)>) -> bool {
    forall|k: int| 0 <= k < items.len() ==> #[trigger] items[k].0 < g.nodes().len()
}

proof fn lemma_size_of_id(g: ContextGraph, x: usize)
    requires
        ids_unique(g),
        x < g.nodes().len(),
    ensures
        size_of_id(g, node_id_of(g, x)) == node_size_of(g, x),
{
    let id = node_id_of(g, x);
    let i = choose|i: usize| i < g.nodes().len() && node_id_of(g, i) == id;
    assert(x < g.nodes().len() && node_id_of(g, x) == id);
    if i != x {
        assert(node_id_of(g, i) != node_id_of(g, x));
    }
}

proof fn lemma_record_total(
    g: ContextGraph,
    s: TraversalState,
    x: usize,
    depth: int,
    edge: Option<EdgeKind>,
    decision: Option<PruningDecision>,
)
    requires
        ids_unique(g),
        x < g.nodes().len(),
        total_matches(g, s),
    ensures
        total_matches(g, state_record(s, node_id_of(g, x), node_size_of(g, x), depth, edge, decision)),
{
    let t = state_record(s, node_id_of(g, x), node_size_of(g, x), depth, edge, decision);
    lemma_size_of_id(g, x);
    assert(t.ordered.drop_last() =~= s.ordered);
}

proof fn lemma_insert_in_graph(g: ContextGraph, s: Seq<(usize, EdgeKind)>, x: (usize, EdgeKind))
    requires
        items_in_graph(g, s),
        x.0 < g.nodes().len(),
    ensures
        items_in_graph(g, insert_by_key(g, s, x)),
    decreases s.len(),
{
    if s.len() > 0 && key_after(g, s.last().0, x.0) {
        let d = s.drop_last();
        assert forall|k: int| 0 <= k < d.len() implies #[trigger] d[k].0 < g.nodes().len() by {
            assert(d[k] == s[k]);
        }
        lemma_insert_in_graph(g, d, x);
        let r = insert_by_key(g, s, x);
        assert forall|k: int| 0 <= k < r.len() implies #[trigger] r[k].0 < g.nodes().len() by {
            if k == r.len() - 1 {
                assert(r[k] == s.last());
                assert(s[s.len() - 1] == s.last());
            } else {
                assert(r[k] == insert_by_key(g, d, x)[k]);
            }
        }
    } else if s.len() > 0 {
        let r = insert_by_key(g, s, x);
        assert forall|k: int| 0 <= k < r.len() implies #[trigger] r[k].0 < g.nodes().len() by {
            if k < s.len() {
                assert(r[k] == s[k]);
            }
        }
    }
}

proof fn lemma_sort_in_graph(g: ContextGraph, s: Seq<(usize, EdgeKind)>)
    requires
        items_in_graph(g, s),
    ensures
        items_in_graph(g, sort_by_key(g, s)),
    decreases s.len(),
{
    if s.len() > 0 {
        let d = s.drop_last();
        assert forall|k: int| 0 <= k < d.len() implies #[trigger] d[k].0 < g.nodes().len() by {
            assert(d[k] == s[k]);
        }
        lemma_sort_in_graph(g, d);
        assert(s[s.len() - 1] == s.last());
        lemma_insert_in_graph(g, sort_by_key(g, d), s.last());
    }
}

proof fn lemma_filter_in_graph(g: ContextGraph, s: Seq<(usize, EdgeKind)>, pred: spec_fn((usize, EdgeKind)) -> bool)
    requires
        items_in_graph(g, s),
    ensures
        items_in_graph(g, s.filter(pred)),
    decreases s.len(),
{
    reveal_with_fuel(Seq::filter, 1);
    if s.len() > 0 {
        let d = s.drop_last();
        assert forall|k: int| 0 <= k < d.len() implies #[trigger] d[k].0 < g.nodes().len() by {
            assert(d[k] == s[k]);
        }
        lemma_filter_in_graph(g, d, pred);
        let r = s.filter(pred);
        assert forall|k: int| 0 <= k < r.len() implies #[trigger] r[k].0 < g.nodes().len() by {
            if k < d.filter(pred).len() {
                assert(r[k] == d.filter(pred)[k]);
            } else {
                assert(r[k] == s.last());
                assert(s[s.len() - 1] == s.last());
            }
        }
    }
}

proof fn lemma_forward_fold_total(
    g: ContextGraph,
    params: PruningParams,
    max_tokens: Option<u32>,
    s: TraversalState,
    depth: u32,
    items: Seq<(usize, EdgeKind)>,
)
    requires
        ids_unique(g),
        total_matches(g, s),
        items_in_graph(g, items),
    ensures
        total_matches(g, forward_fold(g, params, max_tokens, s, depth, items).0),
    decreases items.len(),
{
    if items.len() > 0 {
        let d = items.drop_last();
        assert forall|k: int| 0 <= k < d.len() implies #[trigger] d[k].0 < g.nodes().len() by {
            assert(d[k] == items[k]);
        }
        lemma_forward_fold_total(g, params, max_tokens, s, depth, d);
        let prev = forward_fold(g, params, max_tokens, s, depth, d);
        if !prev.1 {
            let nb = items.last().0;
            let ek = items.last().1;
            let t = prev.0;
            assert(items[items.len() - 1] == items.last());
            let dec = spec_evaluate(params, g.nodes()[nb as int], ek, g.types());
            if dec == PruningDecision::Transparent {
                let r = forward_one(g, params, max_tokens, t, depth, nb, ek).0;
                assert forall|q: int| 0 <= q < r.queue.len() implies #[trigger] r.queue[q].0 < g.nodes().len() by {
                    if q < t.queue.len() {
                        assert(r.queue[q] == t.queue[q]);
                    }
                }
            } else if !t.visited.contains(node_id_of(g, nb)) && !(max_tokens is Some && t.total
                + node_size_of(g, nb) > max_tokens->0) {
                lemma_record_total(g, t, nb, depth + 1, Some(ek), Some(dec));
            }
        }
    }
}

proof fn lemma_reverse_fold_total(
    g: ContextGraph,
    s: TraversalState,
    depth: u32,
    items: Seq<(usize, EdgeKind)>,
    via: ReachedVia,
)
    requires
        total_matches(g, s),
        items_in_graph(g, items),
    ensures
        total_matches(g, reverse_fold(g, s, depth, items, via)),
    decreases items.len(),
{
    if items.len() > 0 {
        let d = items.drop_last();
        assert forall|k: int| 0 <= k < d.len() implies #[trigger] d[k].0 < g.nodes().len() by {
            assert(d[k] == items[k]);
        }
        lemma_reverse_fold_total(g, s, depth, d, via);
        let prev = reverse_fold(g, s, depth, d, via);
        let r = reverse_fold(g, s, depth, items, via);
        assert(items[items.len() - 1] == items.last());
        assert forall|q: int| 0 <= q < r.queue.len() implies #[trigger] r.queue[q].0 < g.nodes().len() by {
            if q < prev.queue.len() {
                assert(r.queue[q] == prev.queue[q]);
            }
        }
    }
}

proof fn lemma_step_total(g: ContextGraph, params: PruningParams, max_tokens: Option<u32>, s: TraversalState)
    requires
        g.wf(),
        ids_unique(g),
        total_matches(g, s),
    ensures
        total_matches(g, traversal_step(g, params, max_tokens, s)),
{
    if !is_terminal(s) {
        let item = s.queue[0];
        let cur = item.0;
        let depth = item.1;
        let via = item.2;
        let s0 = TraversalState { queue: s.queue.drop_first(), ..s };
        assert forall|q: int| 0 <= q < s0.queue.len() implies #[trigger] s0.queue[q].0 < g.nodes().len() by {
            assert(s0.queue[q] == s.queue[q + 1]);
        }
        let id = node_id_of(g, cur);
        if !s0.visited.contains(id) {
            let edge = match via {
                ReachedVia::Forward(ek) => Some(ek),
                _ => None,
            };
            lemma_record_total(g, s0, cur, depth as int, edge, item.3);
            let s1 = state_record(s0, id, node_size_of(g, cur), depth as int, edge, item.3);
            if !limit_reached(max_tokens, s1.total) && via != ReachedVia::CallIn {
                g.lemma_wf_edges();
                lemma_out_edges_bound(g.edges(), cur, g.nodes().len() as int);
                lemma_in_edges_bound(g.edges(), cur, g.nodes().len() as int);
                lemma_filter_in_graph(g, out_edges_of(g.edges(), cur), |p: (usize, EdgeKind)| is_forward_kind(p.1));
                lemma_sort_in_graph(g, forward_out_edges(g.edges(), cur));
                lemma_forward_fold_total(g, params, max_tokens, s1, depth, sorted_out_edges(g, cur));
                let s2 = forward_fold(g, params, max_tokens, s1, depth, sorted_out_edges(g, cur)).0;
                lemma_filter_in_graph(
                    g,
                    in_edges_of(g.edges(), cur),
                    |p: (usize, EdgeKind)| edge_kind_selected(Some(EdgeKind::Call), p.1),
                );
                lemma_filter_in_graph(
                    g,
                    in_edges_of(g.edges(), cur),
                    |p: (usize, EdgeKind)| edge_kind_selected(Some(EdgeKind::Write), p.1),
                );
                lemma_reverse_fold_total(g, s2, depth, in_edges_of_kind(g, cur, EdgeKind::Call), ReachedVia::CallIn);
                let node = g.nodes()[cur as int];
                let s3 = if node is Function && spec_call_in_decision(params, node)
                    == PruningDecision::Transparent {
                    reverse_fold(g, s2, depth, in_edges_of_kind(g, cur, EdgeKind::Call), ReachedVia::CallIn)
                } else {
                    s2
                };
                lemma_reverse_fold_total(
                    g,
                    s3,
                    depth,
                    in_edges_of_kind(g, cur, EdgeKind::Write),
                    ReachedVia::SharedStateWrite,
                );
            }
        }
    }
}

proof fn lemma_run_total(
    g: ContextGraph,
    params: PruningParams,
    max_tokens: Option<u32>,
    starts: Seq<usize>,
    k: nat,
)
    requires
        g.wf(),
        ids_unique(g),
        forall|i: int| 0 <= i < starts.len() ==> #[trigger] starts[i] < g.nodes().len(),
    ensures
        total_matches(g, traversal_run(g, params, max_tokens, initial_state(starts), k)),
    decreases k,
{
    if k == 0 {
        let init = initial_state(starts);
        assert forall|q: int| 0 <= q < init.queue.len() implies #[trigger] init.queue[q].0 < g.nodes().len() by {
            assert(init.queue[q].0 == starts[q]);
        }
    } else {
        lemma_run_total(g, params, max_tokens, starts, (k - 1) as nat);
        lemma_step_total(
            g,
            params,
            max_tokens,
            traversal_run(g, params, max_tokens, initial_state(starts), (k - 1) as nat),
        );
    }
}

/// The footprint is the sum of the sizes of the reached nodes: in every state of the
/// traversal of a well-formed graph whose node ids are distinct, from start nodes in the
/// graph, the running total is the sum of the context sizes of the nodes counted so far.
pub proof fn law_total_is_sum_of_reached_sizes(
    g: ContextGraph,
    params: PruningParams,
    max_tokens: Option<u32>,
    starts: Seq<usize>,
    k: nat,
)
    requires
        g.wf(),
        ids_unique(g),
        forall|i: int| 0 <= i < starts.len() ==> #[trigger] starts[i] < g.nodes().len(),
    ensures
        traversal_run(g, params, max_tokens, initial_state(starts), k).total == sizes_sum(
            g,
            traversal_run(g, params, max_tokens, initial_state(starts), k).ordered,
        ),
{
    lemma_run_total(g, params, max_tokens, starts, k);
}

/// A graph whose node ids are their indices (as `GraphBuilder::build` makes them) has
/// distinct node ids.
pub proof fn law_indexed_ids_are_unique(g: ContextGraph)
    requires
        forall|i: int| 0 <= i < g.nodes().len() ==> (#[trigger] g.nodes()[i]).spec_core().id == i,
    ensures
        ids_unique(g),
{
    assert forall|i: usize, j: usize|
        #![trigger node_id_of(g, i), node_id_of(g, j)]
        i < g.nodes().len() && j < g.nodes().len() && i != j implies node_id_of(g, i) != node_id_of(g, j) by {
        assert(g.nodes()[i as int].spec_core().id == i);
        assert(g.nodes()[j as int].spec_core().id == j);
    }
}

proof fn lemma_sizes_sum_covers_first(g: ContextGraph, ids: Seq<NodeId>)
    requires
        ids.len() > 0,
    ensures
        sizes_sum(g, ids) >= size_of_id(g, ids[0]),
    decreases ids.len(),
{
    assert(size_of_id(g, ids.last()) >= 0);
    if ids.len() > 1 {
        lemma_sizes_sum_covers_first(g, ids.drop_last());
        assert(ids.drop_last()[0] == ids[0]);
    } else {
        assert(sizes_sum(g, ids.drop_last()) == 0);
        assert(ids.last() == ids[0]);
    }
}

/// The footprint covers its start: a finished traversal of a well-formed graph with distinct
/// node ids, from start nodes in the graph, totals at least the context size of the first
/// start node.
pub proof fn law_total_covers_first_start(
    g: ContextGraph,
    params: PruningParams,
    max_tokens: Option<u32>,
    starts: Seq<usize>,
    k: nat,
)
    requires
        g.wf(),
        ids_unique(g),
        starts.len() > 0,
        forall|i: int| 0 <= i < starts.len() ==> #[trigger] starts[i] < g.nodes().len(),
        is_terminal(traversal_run(g, params, max_tokens, initial_state(starts), k)),
    ensures
        traversal_run(g, params, max_tokens, initial_state(starts), k).total >= node_size_of(g, starts[0]),
{
    let f = traversal_run(g, params, max_tokens, initial_state(starts), k);
    law_first_start_reached(g, params, max_tokens, starts, k);
    law_total_is_sum_of_reached_sizes(g, params, max_tokens, starts, k);
    lemma_sizes_sum_covers_first(g, f.ordered);
    assert(starts[0] < g.nodes().len());
    lemma_size_of_id(g, starts[0]);
}

// -----------------------------------------------------------------------------
// A token limit that is never reached
// -----------------------------------------------------------------------------

/// Without a limit a forward scan never stops, and it never lowers the total.
proof fn lemma_forward_fold_unlimited(
    g: ContextGraph,
    params: PruningParams,
    s: TraversalState,
    depth: u32,
    items: Seq<(usize, EdgeKind)>,
)
    ensures
        !forward_fold(g, params, None, s, depth, items).1,
        forward_fold(g, params, None, s, depth, items).0.total >= s.total,
    decreases items.len(),
{
    if items.len() > 0 {
        lemma_forward_fold_unlimited(g, params, s, depth, items.drop_last());
    }
}

/// A forward scan whose unlimited run stays below `l` runs the same under the limit `l`.
proof fn lemma_forward_fold_ample(
    g: ContextGraph,
    params: PruningParams,
    l: u32,
    s: TraversalState,
    depth: u32,
    items: Seq<(usize, EdgeKind)>,
)
    requires
        forward_fold(g, params, None, s, depth, items).0.total < l,
    ensures
        forward_fold(g, params, Some(l), s, depth, items) == forward_fold(g, params, None, s, depth, items),
    decreases items.len(),
{
    if items.len() > 0 {
        let d = items.drop_last();
        lemma_forward_fold_unlimited(g, params, s, depth, d);
        let prev = forward_fold(g, params, None, s, depth, d);
        let nb = items.last().0;
        let ek = items.last().1;
        let last = forward_one(g, params, None, prev.0, depth, nb, ek);
        assert(last.0.total >= prev.0.total);
        lemma_forward_fold_ample(g, params, l, s, depth, d);
    }
}

/// A step whose unlimited result stays below `l` runs the same under the limit `l`.
proof fn lemma_step_ample(g: ContextGraph, params: PruningParams, l: u32, s: TraversalState)
    requires
        !s.halted,
        traversal_step(g, params, None, s).total < l,
    ensures
        traversal_step(g, params, Some(l), s) == traversal_step(g, params, None, s),
{
    if !is_terminal(s) {
        let item = s.queue[0];
        let cur = item.0;
        let depth = item.1;
        let via = item.2;
        let s0 = TraversalState { queue: s.queue.drop_first(), ..s };
        if !s0.visited.contains(node_id_of(g, cur)) {
            let edge = match via {
                ReachedVia::Forward(ek) => Some(ek),
                _ => None,
            };
            let s1 = state_record(s0, node_id_of(g, cur), node_size_of(g, cur), depth as int, edge, item.3);
            if via != ReachedVia::CallIn {
                let outs = sorted_out_edges(g, cur);
                lemma_forward_fold_unlimited(g, params, s1, depth, outs);
                let s2 = forward_fold(g, params, None, s1, depth, outs).0;
                lemma_reverse_fold_queue_only(g, s2, depth, in_edges_of_kind(g, cur, EdgeKind::Call), ReachedVia::CallIn);
                let s3 = if g.nodes()[cur as int] is Function && spec_call_in_decision(params, g.nodes()[cur as int])
                    == PruningDecision::Transparent {
                    reverse_fold(g, s2, depth, in_edges_of_kind(g, cur, EdgeKind::Call), ReachedVia::CallIn)
                } else {
                    s2
                };
                lemma_reverse_fold_queue_only(g, s3, depth, in_edges_of_kind(g, cur, EdgeKind::Write), ReachedVia::SharedStateWrite);
                lemma_forward_fold_ample(g, params, l, s1, depth, outs);
            }
        }
    }
}

/// Along the unlimited traversal the total never falls.
proof fn lemma_step_total_grows(g: ContextGraph, params: PruningParams, s: TraversalState)
    ensures
        traversal_step(g, params, None, s).total >= s.total,
{
    if !is_terminal(s) {
        let item = s.queue[0];
        let cur = item.0;
        let s0 = TraversalState { queue: s.queue.drop_first(), ..s };
        if !s0.visited.contains(node_id_of(g, cur)) {
            let edge = match item.2 {
                ReachedVia::Forward(ek) => Some(ek),
                _ => None,
            };
            let s1 = state_record(s0, node_id_of(g, cur), node_size_of(g, cur), item.1 as int, edge, item.3);
            let outs = sorted_out_edges(g, cur);
            lemma_forward_fold_unlimited(g, params, s1, item.1, outs);
            let s2 = forward_fold(g, params, None, s1, item.1, outs).0;
            lemma_reverse_fold_queue_only(g, s2, item.1, in_edges_of_kind(g, cur, EdgeKind::Call), ReachedVia::CallIn);
            let s3 = if g.nodes()[cur as int] is Function && spec_call_in_decision(params, g.nodes()[cur as int])
                == PruningDecision::Transparent {
                reverse_fold(g, s2, item.1, in_edges_of_kind(g, cur, EdgeKind::Call), ReachedVia::CallIn)
            } else {
                s2
            };
            lemma_reverse_fold_queue_only(g, s3, item.1, in_edges_of_kind(g, cur, EdgeKind::Write), ReachedVia::SharedStateWrite);
        }
    }
}

proof fn lemma_run_total_bounded(g: ContextGraph, params: PruningParams, starts: Seq<usize>, j: nat, k: nat)
    requires
        is_terminal(traversal_run(g, params, None, initial_state(starts), k)),
    ensures
        traversal_run(g, params, None, initial_state(starts), j).total <= traversal_run(
            g,
            params,
            None,
            initial_state(starts),
            k,
        ).total,
    decreases k - j,
{
    if j < k {
        lemma_run_total_bounded(g, params, starts, j + 1, k);
        lemma_step_total_grows(g, params, traversal_run(g, params, None, initial_state(starts), j));
    } else {
        lemma_terminal_stays(g, params, None, starts, k, j);
    }
}

/// A token limit above the total of the unlimited traversal changes nothing: when the
/// traversal without a limit finishes with a total below `l`, every state of the traversal
/// under the limit `l` is the state of the traversal without a limit (same reachable set,
/// order, layers, steps and total).
pub proof fn law_ample_limit_changes_nothing(
    g: ContextGraph,
    params: PruningParams,
    starts: Seq<usize>,
    l: u32,
    k: nat,
    j: nat,
)
    requires
        is_terminal(traversal_run(g, params, None, initial_state(starts), k)),
        traversal_run(g, params, None, initial_state(starts), k).total < l,
    ensures
        traversal_run(g, params, Some(l), initial_state(starts), j) == traversal_run(
            g,
            params,
            None,
            initial_state(starts),
            j,
        ),
    decreases j,
{
    if j > 0 {
        law_ample_limit_changes_nothing(g, params, starts, l, k, (j - 1) as nat);
        let prev = traversal_run(g, params, None, initial_state(starts), (j - 1) as nat);
        lemma_run_total_bounded(g, params, starts, j, k);
        lemma_run_consistent(g, params, None, starts, (j - 1) as nat);
        lemma_step_ample(g, params, l, prev);
    }
}

// -----------------------------------------------------------------------------
// A graph whose sizes fit in u32 never overflows
// -----------------------------------------------------------------------------

/// The sum of the context sizes of the first `n` nodes.
pub open spec fn prefix_size(g: ContextGraph, n: nat) -> int
    decreases n,
{
    if n == 0 {
        0
    } else {
        prefix_size(g, (n - 1) as nat) + node_size_of(g, (n - 1) as usize)
    }
}

/// The sum of the context sizes of all the nodes of the graph.
pub open spec fn graph_size(g: ContextGraph) -> int {
    prefix_size(g, g.nodes().len())
}

/// `id` is the id of one of the first `n` nodes.
spec fn in_prefix(g: ContextGraph, n: nat, id: NodeId) -> bool {
    exists|i: usize| i < n && #[trigger] node_id_of(g, i) == id
}

proof fn lemma_sizes_sum_remove(g: ContextGraph, ids: Seq<NodeId>, j: int)
    requires
        0 <= j < ids.len(),
    ensures
        sizes_sum(g, ids) == sizes_sum(g, ids.remove(j)) + size_of_id(g, ids[j]),
    decreases ids.len(),
{
    if j == ids.len() - 1 {
        assert(ids.remove(j) =~= ids.drop_last());
    } else {
        let d = ids.drop_last();
        lemma_sizes_sum_remove(g, d, j);
        assert(ids.remove(j).drop_last() =~= d.remove(j));
        assert(ids.remove(j).last() == ids.last());
        assert(d[j] == ids[j]);
    }
}

/// Distinct ids of the first `n` nodes weigh no more than those `n` nodes.
proof fn lemma_distinct_sizes_bound(g: ContextGraph, ids: Seq<NodeId>, n: nat)
    requires
        ids_unique(g),
        n <= g.nodes().len(),
        ids.no_duplicates(),
        forall|k: int| 0 <= k < ids.len() ==> in_prefix(g, n, #[trigger] ids[k]),
    ensures
        sizes_sum(g, ids) <= prefix_size(g, n),
    decreases n,
{
    if n == 0 {
        if ids.len() > 0 {
            assert(in_prefix(g, 0, ids[0]));
        }
        assert(ids.len() == 0);
    } else {
        let x = (n - 1) as usize;
        let last = node_id_of(g, x);
        lemma_size_of_id(g, x);
        if ids.contains(last) {
            let j = ids.index_of(last);
            let r = ids.remove(j);
            lemma_sizes_sum_remove(g, ids, j);
            assert forall|k: int| 0 <= k < r.len() implies in_prefix(g, (n - 1) as nat, #[trigger] r[k]) by {
                let o = if k < j { k } else { k + 1 };
                assert(r[k] == ids[o]);
                assert(in_prefix(g, n, ids[o]));
                let i = choose|i: usize| i < n && #[trigger] node_id_of(g, i) == ids[o];
                if i == x {
                    assert(ids[o] == ids[j]);
                }
                assert(i < n - 1);
            }
            assert(r.no_duplicates()) by {
                assert forall|a: int, b: int| 0 <= a < r.len() && 0 <= b < r.len() && a != b implies r[a] != r[b] by {
                    let oa = if a < j { a } else { a + 1 };
                    let ob = if b < j { b } else { b + 1 };
                    assert(r[a] == ids[oa]);
                    assert(r[b] == ids[ob]);
                }
            }
            lemma_distinct_sizes_bound(g, r, (n - 1) as nat);
        } else {
            assert forall|k: int| 0 <= k < ids.len() implies in_prefix(g, (n - 1) as nat, #[trigger] ids[k]) by {
                assert(in_prefix(g, n, ids[k]));
                let i = choose|i: usize| i < n && #[trigger] node_id_of(g, i) == ids[k];
                if i == x {
                    assert(ids.contains(last));
                }
            }
            lemma_distinct_sizes_bound(g, ids, (n - 1) as nat);
        }
    }
}

/// What every state of the traversal of a graph keeps, besides a total within `u32`.
spec fn fits_inv(g: ContextGraph, s: TraversalState) -> bool {
    &&& total_matches(g, s)
    &&& s.visited == s.ordered.to_set()
    &&& s.ordered.no_duplicates()
    &&& forall|k: int| 0 <= k < s.ordered.len() ==> in_prefix(g, g.nodes().len(), #[trigger] s.ordered[k])
    &&& !s.overflow
}

/// Counting a node that is not yet counted keeps the total within the size of the graph.
proof fn lemma_count_fits(g: ContextGraph, s: TraversalState, x: usize)
    requires
        ids_unique(g),
        fits_inv(g, s),
        x < g.nodes().len(),
        !s.visited.contains(node_id_of(g, x)),
    ensures
        s.total + node_size_of(g, x) <= graph_size(g),
{
    let id = node_id_of(g, x);
    let t = s.ordered.push(id);
    assert(!s.ordered.contains(id));
    assert(t.no_duplicates()) by {
        assert forall|a: int, b: int| 0 <= a < t.len() && 0 <= b < t.len() && a != b implies t[a] != t[b] by {
            if a < s.ordered.len() && b < s.ordered.len() {
                assert(t[a] == s.ordered[a] && t[b] == s.ordered[b]);
            } else if a < s.ordered.len() {
                assert(t[a] == s.ordered[a]);
            } else if b < s.ordered.len() {
                assert(t[b] == s.ordered[b]);
            }
        }
    }
    assert forall|k: int| 0 <= k < t.len() implies in_prefix(g, g.nodes().len(), #[trigger] t[k]) by {
        if k < s.ordered.len() {
            assert(t[k] == s.ordered[k]);
        } else {
            assert(node_id_of(g, x) == t[k]);
        }
    }
    lemma_distinct_sizes_bound(g, t, g.nodes().len());
    assert(t.drop_last() =~= s.ordered);
    lemma_size_of_id(g, x);
}

proof fn lemma_record_fits(
    g: ContextGraph,
    s: TraversalState,
    x: usize,
    depth: int,
    edge: Option<EdgeKind>,
    decision: Option<PruningDecision>,
)
    requires
        ids_unique(g),
        graph_size(g) <= u32::MAX,
        fits_inv(g, s),
        x < g.nodes().len(),
        !s.visited.contains(node_id_of(g, x)),
    ensures
        fits_inv(g, state_record(s, node_id_of(g, x), node_size_of(g, x), depth, edge, decision)),
{
    let id = node_id_of(g, x);
    let t = state_record(s, id, node_size_of(g, x), depth, edge, decision);
    lemma_count_fits(g, s, x);
    lemma_record_total(g, s, x, depth, edge, decision);
    lemma_push_to_set(s.ordered, id);
    assert(!s.ordered.contains(id));
    assert(t.ordered.no_duplicates()) by {
        assert forall|a: int, b: int| 0 <= a < t.ordered.len() && 0 <= b < t.ordered.len() && a != b implies t.ordered[a] != t.ordered[b] by {
            if a < s.ordered.len() {
                assert(t.ordered[a] == s.ordered[a]);
            }
            if b < s.ordered.len() {
                assert(t.ordered[b] == s.ordered[b]);
            }
        }
    }
    assert forall|k: int| 0 <= k < t.ordered.len() implies in_prefix(g, g.nodes().len(), #[trigger] t.ordered[k]) by {
        if k < s.ordered.len() {
            assert(t.ordered[k] == s.ordered[k]);
        } else {
            assert(node_id_of(g, x) == t.ordered[k]);
        }
    }
}

proof fn lemma_forward_fold_fits(
    g: ContextGraph,
    params: PruningParams,
    max_tokens: Option<u32>,
    s: TraversalState,
    depth: u32,
    items: Seq<(usize, EdgeKind)>,
)
    requires
        ids_unique(g),
        graph_size(g) <= u32::MAX,
        fits_inv(g, s),
        items_in_graph(g, items),
    ensures
        fits_inv(g, forward_fold(g, params, max_tokens, s, depth, items).0),
    decreases items.len(),
{
    lemma_forward_fold_total(g, params, max_tokens, s, depth, items);
    if items.len() > 0 {
        let d = items.drop_last();
        assert forall|k: int| 0 <= k < d.len() implies #[trigger] d[k].0 < g.nodes().len() by {
            assert(d[k] == items[k]);
        }
        lemma_forward_fold_fits(g, params, max_tokens, s, depth, d);
        let prev = forward_fold(g, params, max_tokens, s, depth, d);
        if !prev.1 {
            let nb = items.last().0;
            let ek = items.last().1;
            let t = prev.0;
            assert(items[items.len() - 1] == items.last());
            let dec = spec_evaluate(params, g.nodes()[nb as int], ek, g.types());
            if dec != PruningDecision::Transparent && !t.visited.contains(node_id_of(g, nb)) {
                lemma_count_fits(g, t, nb);
                if !(max_tokens is Some && t.total + node_size_of(g, nb) > max_tokens->0) {
                    lemma_record_fits(g, t, nb, depth + 1, Some(ek), Some(dec));
                }
            }
        }
    }
}

proof fn lemma_step_fits(g: ContextGraph, params: PruningParams, max_tokens: Option<u32>, s: TraversalState)
    requires
        g.wf(),
        ids_unique(g),
        graph_size(g) <= u32::MAX,
        fits_inv(g, s),
    ensures
        fits_inv(g, traversal_step(g, params, max_tokens, s)),
{
    lemma_step_total(g, params, max_tokens, s);
    if !is_terminal(s) {
        let item = s.queue[0];
        let cur = item.0;
        let depth = item.1;
        let via = item.2;
        let s0 = TraversalState { queue: s.queue.drop_first(), ..s };
        assert forall|q: int| 0 <= q < s0.queue.len() implies #[trigger] s0.queue[q].0 < g.nodes().len() by {
            assert(s0.queue[q] == s.queue[q + 1]);
        }
        let id = node_id_of(g, cur);
        if !s0.visited.contains(id) {
            let edge = match via {
                ReachedVia::Forward(ek) => Some(ek),
                _ => None,
            };
            lemma_record_fits(g, s0, cur, depth as int, edge, item.3);
            let s1 = state_record(s0, id, node_size_of(g, cur), depth as int, edge, item.3);
            if !limit_reached(max_tokens, s1.total) && via != ReachedVia::CallIn {
                g.lemma_wf_edges();
                lemma_out_edges_bound(g.edges(), cur, g.nodes().len() as int);
                lemma_filter_in_graph(g, out_edges_of(g.edges(), cur), |p: (usize, EdgeKind)| is_forward_kind(p.1));
                lemma_sort_in_graph(g, forward_out_edges(g.edges(), cur));
                lemma_forward_fold_fits(g, params, max_tokens, s1, depth, sorted_out_edges(g, cur));
                let s2 = forward_fold(g, params, max_tokens, s1, depth, sorted_out_edges(g, cur)).0;
                lemma_reverse_fold_queue_only(g, s2, depth, in_edges_of_kind(g, cur, EdgeKind::Call), ReachedVia::CallIn);
                let node = g.nodes()[cur as int];
                let s3 = if node is Function && spec_call_in_decision(params, node)
                    == PruningDecision::Transparent {
                    reverse_fold(g, s2, depth, in_edges_of_kind(g, cur, EdgeKind::Call), ReachedVia::CallIn)
                } else {
                    s2
                };
                lemma_reverse_fold_queue_only(
                    g,
                    s3,
                    depth,
                    in_edges_of_kind(g, cur, EdgeKind::Write),
                    ReachedVia::SharedStateWrite,
                );
            }
        }
    }
}

proof fn lemma_run_fits(
    g: ContextGraph,
    params: PruningParams,
    max_tokens: Option<u32>,
    starts: Seq<usize>,
    k: nat,
)
    requires
        g.wf(),
        ids_unique(g),
        graph_size(g) <= u32::MAX,
        forall|i: int| 0 <= i < starts.len() ==> #[trigger] starts[i] < g.nodes().len(),
    ensures
        fits_inv(g, traversal_run(g, params, max_tokens, initial_state(starts), k)),
    decreases k,
{
    if k == 0 {
        let init = initial_state(starts);
        lemma_run_total(g, params, max_tokens, starts, 0);
        assert(init.ordered.to_set() =~= Set::<NodeId>::empty());
    } else {
        lemma_run_fits(g, params, max_tokens, starts, (k - 1) as nat);
        lemma_step_fits(
            g,
            params,
            max_tokens,
            traversal_run(g, params, max_tokens, initial_state(starts), (k - 1) as nat),
        );
    }
}

/// A graph whose context sizes sum to at most `u32::MAX` never makes the traversal leave
/// `u32`: with distinct node ids and start nodes in the graph, whatever the token limit,
/// `compute_cf` can run and `compute_cf_total` reports the traversal's total.
pub proof fn law_small_graph_never_overflows(
    g: ContextGraph,
    params: PruningParams,
    starts: Seq<usize>,
    max_tokens: Option<u32>,
)
    requires
        g.wf(),
        ids_unique(g),
        graph_size(g) <= u32::MAX,
        forall|i: int| 0 <= i < starts.len() ==> #[trigger] starts[i] < g.nodes().len(),
    ensures
        !traversal_overflows(g, params, starts, max_tokens),
{
    assert forall|k: nat| !(#[trigger] traversal_run(g, params, max_tokens, initial_state(starts), k)).overflow by {
        lemma_run_fits(g, params, max_tokens, starts, k);
    }
}

/// The traversal has one outcome: any two finished states of the same traversal are the
/// same state. So `compute_cf(&[start], None)` and `compute_cf_total(start)`, which both
/// report a finished state of the traversal from `start` without a limit, report the same
/// total.
pub proof fn law_finished_traversal_is_unique(
    g: ContextGraph,
    params: PruningParams,
    max_tokens: Option<u32>,
    starts: Seq<usize>,
    j: nat,
    k: nat,
)
    requires
        is_terminal(traversal_run(g, params, max_tokens, initial_state(starts), j)),
        is_terminal(traversal_run(g, params, max_tokens, initial_state(starts), k)),
    ensures
        traversal_run(g, params, max_tokens, initial_state(starts), j) == traversal_run(
            g,
            params,
            max_tokens,
            initial_state(starts),
            k,
        ),
{
    if j <= k {
        lemma_terminal_stays(g, params, max_tokens, starts, j, k);
    } else {
        lemma_terminal_stays(g, params, max_tokens, starts, k, j);
    }
}

/// A caller reached by call-in exploration adds just itself: processing it queues no node
/// (neither its forward neighbours nor its own callers) and counts at most that one node,
/// adding at most its size to the total.
pub proof fn law_call_in_caller_adds_only_itself(
    g: ContextGraph,
    params: PruningParams,
    max_tokens: Option<u32>,
    s: TraversalState,
)
    requires
        s.queue.len() > 0,
        s.queue[0].2 == ReachedVia::CallIn,
    ensures
        ({
            let t = traversal_step(g, params, max_tokens, s);
            let x = s.queue[0].0;
            &&& t.queue == s.queue.drop_first() || (s.halted && t == s)
            &&& t.ordered == s.ordered || t.ordered == s.ordered.push(node_id_of(g, x))
            &&& t.visited.subset_of(s.visited.insert(node_id_of(g, x)))
            &&& t.total == s.total || t.total == s.total + node_size_of(g, x)
        }),
{
}

proof fn lemma_in_edges_contains(edges: Seq<(usize, usize, EdgeKind)>, a: usize, j: int)
    requires
        0 <= j < edges.len(),
        edges[j].1 == a,
    ensures
        in_edges_of(edges, a).contains((edges[j].0, edges[j].2)),
    decreases edges.len(),
{
    let d = edges.drop_last();
    let rest = in_edges_of(d, a);
    if j == edges.len() - 1 {
        assert(edges[j] == edges.last());
        assert(in_edges_of(edges, a)[0] == (edges[j].0, edges[j].2));
    } else {
        assert(d[j] == edges[j]);
        lemma_in_edges_contains(d, a, j);
        let i = choose|i: int| 0 <= i < rest.len() && rest[i] == (edges[j].0, edges[j].2);
        if edges.last().1 == a {
            assert(in_edges_of(edges, a)[i + 1] == rest[i]);
        } else {
            assert(in_edges_of(edges, a)[i] == rest[i]);
        }
    }
}

/// Reverse exploration keeps the queue and appends every not yet visited source.
proof fn lemma_reverse_fold_queues(
    g: ContextGraph,
    s: TraversalState,
    depth: u32,
    items: Seq<(usize, EdgeKind)>,
    via: ReachedVia,
)
    ensures
        ({
            let r = reverse_fold(g, s, depth, items, via);
            &&& r.queue.len() >= s.queue.len()
            &&& forall|q: int| 0 <= q < s.queue.len() ==> #[trigger] r.queue[q] == s.queue[q]
            &&& forall|p: (usize, EdgeKind)|
                #[trigger] items.contains(p) && !s.visited.contains(node_id_of(g, p.0)) ==> r.queue.contains(
                    (p.0, (depth + 1) as u32, via, None::<PruningDecision>),
                )
        }),
    decreases items.len(),
{
    lemma_reverse_fold_queue_only(g, s, depth, items, via);
    if items.len() > 0 {
        let d = items.drop_last();
        lemma_reverse_fold_queues(g, s, depth, d, via);
        lemma_reverse_fold_queue_only(g, s, depth, d, via);
        let prev = reverse_fold(g, s, depth, d, via);
        let r = reverse_fold(g, s, depth, items, via);
        let item = (items.last().0, (depth + 1) as u32, via, None::<PruningDecision>);
        assert forall|q: int| 0 <= q < prev.queue.len() implies #[trigger] r.queue[q] == prev.queue[q] by {}
        assert forall|p: (usize, EdgeKind)|
            #[trigger] items.contains(p) && !s.visited.contains(node_id_of(g, p.0)) implies r.queue.contains(
                (p.0, (depth + 1) as u32, via, None::<PruningDecision>),
            ) by {
            let k = choose|k: int| 0 <= k < items.len() && items[k] == p;
            if k < d.len() {
                assert(d[k] == p);
                assert(d.contains(p));
                let q = choose|q: int| 0 <= q < prev.queue.len() && prev.queue[q] == (p.0, (depth + 1) as u32, via, None::<PruningDecision>);
                assert(r.queue[q] == prev.queue[q]);
            } else {
                assert(p == items.last());
                assert(r.queue[r.queue.len() - 1] == item);
            }
        }
    }
}

/// An under-specified function (one whose call-in decision is Transparent) reached from a
/// start or by a forward edge and counted without hitting the limit queues every caller
/// (the source of each Call edge into it) that is not counted by then, to be explored by
/// call-in at the next depth.
pub proof fn law_under_specified_function_queues_its_callers(
    g: ContextGraph,
    params: PruningParams,
    max_tokens: Option<u32>,
    s: TraversalState,
    j: int,
)
    requires
        !is_terminal(s),
        s.queue[0].2 != ReachedVia::CallIn,
        !s.visited.contains(node_id_of(g, s.queue[0].0)),
        g.nodes()[s.queue[0].0 as int] is Function,
        spec_call_in_decision(params, g.nodes()[s.queue[0].0 as int]) == PruningDecision::Transparent,
        !limit_reached(max_tokens, s.total + node_size_of(g, s.queue[0].0)),
        0 <= j < g.edges().len(),
        g.edges()[j].1 == s.queue[0].0,
        g.edges()[j].2 == EdgeKind::Call,
        !traversal_step(g, params, max_tokens, s).visited.contains(node_id_of(g, g.edges()[j].0)),
    ensures
        traversal_step(g, params, max_tokens, s).queue.contains(
            (g.edges()[j].0, (s.queue[0].1 + 1) as u32, ReachedVia::CallIn, None::<PruningDecision>),
        ),
{
    let item = s.queue[0];
    let cur = item.0;
    let depth = item.1;
    let via = item.2;
    let s0 = TraversalState { queue: s.queue.drop_first(), ..s };
    let edge = match via {
        ReachedVia::Forward(ek) => Some(ek),
        _ => None,
    };
    let s1 = state_record(s0, node_id_of(g, cur), node_size_of(g, cur), depth as int, edge, item.3);
    let s2 = forward_fold(g, params, max_tokens, s1, depth, sorted_out_edges(g, cur)).0;
    let calls = in_edges_of_kind(g, cur, EdgeKind::Call);
    let s3 = reverse_fold(g, s2, depth, calls, ReachedVia::CallIn);
    let writes = in_edges_of_kind(g, cur, EdgeKind::Write);
    lemma_reverse_fold_queue_only(g, s2, depth, calls, ReachedVia::CallIn);
    lemma_reverse_fold_queue_only(g, s3, depth, writes, ReachedVia::SharedStateWrite);
    let p = (g.edges()[j].0, g.edges()[j].2);
    lemma_in_edges_contains(g.edges(), cur, j);
    let ins = in_edges_of(g.edges(), cur);
    let pred = |e: (usize, EdgeKind)| edge_kind_selected(Some(EdgeKind::Call), e.1);
    ins.filter_lemma(pred);
    let k = choose|k: int| 0 <= k < ins.len() && ins[k] == p;
    assert(pred(ins[k]));
    assert(calls.contains(p));
    lemma_reverse_fold_queues(g, s2, depth, calls, ReachedVia::CallIn);
    let target = (p.0, (depth + 1) as u32, ReachedVia::CallIn, None::<PruningDecision>);
    let q = choose|q: int| 0 <= q < s3.queue.len() && s3.queue[q] == target;
    lemma_reverse_fold_queues(g, s3, depth, writes, ReachedVia::SharedStateWrite);
    let s4 = reverse_fold(g, s3, depth, writes, ReachedVia::SharedStateWrite);
    assert(s4.queue[q] == target);
}

/// A mutable variable reached by a read and counted without hitting the limit queues every
/// writer (the source of each Write edge into it) that is not counted by then, to be
/// explored as shared-state writers at the next depth.
pub proof fn law_mutable_read_queues_its_writers(
    g: ContextGraph,
    params: PruningParams,
    max_tokens: Option<u32>,
    s: TraversalState,
    j: int,
)
    requires
        !is_terminal(s),
        s.queue[0].2 == ReachedVia::Forward(EdgeKind::Read),
        !s.visited.contains(node_id_of(g, s.queue[0].0)),
        g.nodes()[s.queue[0].0 as int] matches Node::Variable(v) && v.mutability == Mutability::Mutable,
        !limit_reached(max_tokens, s.total + node_size_of(g, s.queue[0].0)),
        0 <= j < g.edges().len(),
        g.edges()[j].1 == s.queue[0].0,
        g.edges()[j].2 == EdgeKind::Write,
        !traversal_step(g, params, max_tokens, s).visited.contains(node_id_of(g, g.edges()[j].0)),
    ensures
        traversal_step(g, params, max_tokens, s).queue.contains(
            (g.edges()[j].0, (s.queue[0].1 + 1) as u32, ReachedVia::SharedStateWrite, None::<PruningDecision>),
        ),
{
    let item = s.queue[0];
    let cur = item.0;
    let depth = item.1;
    let via = item.2;
    let s0 = TraversalState { queue: s.queue.drop_first(), ..s };
    let edge = match via {
        ReachedVia::Forward(ek) => Some(ek),
        _ => None,
    };
    let s1 = state_record(s0, node_id_of(g, cur), node_size_of(g, cur), depth as int, edge, item.3);
    let s2 = forward_fold(g, params, max_tokens, s1, depth, sorted_out_edges(g, cur)).0;
    let s3 = s2;
    let writes = in_edges_of_kind(g, cur, EdgeKind::Write);
    lemma_reverse_fold_queue_only(g, s3, depth, writes, ReachedVia::SharedStateWrite);
    let p = (g.edges()[j].0, g.edges()[j].2);
    lemma_in_edges_contains(g.edges(), cur, j);
    let ins = in_edges_of(g.edges(), cur);
    let pred = |e: (usize, EdgeKind)| edge_kind_selected(Some(EdgeKind::Write), e.1);
    ins.filter_lemma(pred);
    let k = choose|k: int| 0 <= k < ins.len() && ins[k] == p;
    assert(pred(ins[k]));
    assert(writes.contains(p));
    lemma_reverse_fold_queues(g, s3, depth, writes, ReachedVia::SharedStateWrite);
}

} // verus!
