//! A graph of SCIP symbols, with an edge from each definition to the symbols referenced
//! inside it.
use crate::adapters::scip::parser::{
    def_ranges, enclosing_choice, find_enclosing_definition, lemma_enclosing_choice_bounds,
};
use crate::scip::{Document, Index, Occurrence, ROLE_DEFINITION};
use crate::symbol::{infer_type_spec, parse_ok, parse_spec, symbol_parses, ScipSymbol, SymbolType};
use crate::text::{is_prefix, str_chars, str_starts_with};
use petgraph::graph::{Graph, NodeIndex};
use petgraph::Directed;
use vstd::hash_map::StringHashMap;
use vstd::prelude::*;

verus! {

/// A node of the symbol graph.
#[derive(Debug, Clone)]
pub struct NodeData {
    pub symbol: String,
    pub symbol_type: SymbolType,
}

/// The node weights of a symbol graph, in index order.
pub uninterp spec fn symbol_graph_nodes(g: Graph<NodeData, (), Directed, u32>) -> Seq<NodeData>;

/// The edges of a symbol graph as (source, target), in order of insertion.
pub uninterp spec fn symbol_graph_edges(g: Graph<NodeData, (), Directed, u32>) -> Seq<(usize, usize)>;

/// `petgraph::graph::Graph::new`: an empty graph.
#[verifier::external_body]
fn symbol_graph_new() -> (g: Graph<NodeData, (), Directed, u32>)
    ensures
        symbol_graph_nodes(g) == Seq::<NodeData>::empty(),
        symbol_graph_edges(g) == Seq::<(usize, usize)>::empty(),
{
    Graph::new()
}

/// `petgraph::graph::Graph::add_node`: appends the weight; the new index is the old node count.
/// petgraph panics when the u32 index space is exhausted, which `requires` rules out.
#[verifier::external_body]
fn symbol_graph_add_node(g: &mut Graph<NodeData, (), Directed, u32>, weight: NodeData) -> (idx: usize)
    requires
        symbol_graph_nodes(*old(g)).len() < u32::MAX,
    ensures
        idx == symbol_graph_nodes(*old(g)).len(),
        symbol_graph_nodes(*final(g)) == symbol_graph_nodes(*old(g)).push(weight),
        symbol_graph_edges(*final(g)) == symbol_graph_edges(*old(g)),
{
    g.add_node(weight).index()
}

/// `petgraph::graph::Graph::add_edge`: appends the edge (parallel edges allowed).
/// petgraph panics on out-of-bounds endpoints or an exhausted u32 edge index space.
#[verifier::external_body]
fn symbol_graph_add_edge(g: &mut Graph<NodeData, (), Directed, u32>, a: usize, b: usize)
    requires
        a < symbol_graph_nodes(*old(g)).len(),
        b < symbol_graph_nodes(*old(g)).len(),
        symbol_graph_edges(*old(g)).len() < u32::MAX,
    ensures
        symbol_graph_nodes(*final(g)) == symbol_graph_nodes(*old(g)),
        symbol_graph_edges(*final(g)) == symbol_graph_edges(*old(g)).push((a, b)),
{
    g.add_edge(NodeIndex::new(a), NodeIndex::new(b), ());
}

/// The type of the symbol named `s`: inferred from its parse, `Other` when it does not parse.
pub open spec fn symbol_type_of(s: Seq<char>) -> SymbolType {
    match parse_spec(s) {
        Some(m) => infer_type_spec(m),
        None => SymbolType::Other,
    }
}

/// The symbol graph as values: node symbols in index order, the index of each symbol, and
/// the edges in order of insertion.
pub struct SymbolGraphModel {
    pub symbols: Seq<Seq<char>>,
    pub index: Map<Seq<char>, usize>,
    pub edges: Seq<(usize, usize)>,
}

/// Edges stay within the nodes, and `index` sends each symbol to its one node.
pub open spec fn model_wf(m: SymbolGraphModel) -> bool {
    &&& forall|e: int|
        0 <= e < m.edges.len() ==> #[trigger] m.edges[e].0 < m.symbols.len() && m.edges[e].1
            < m.symbols.len()
    &&& forall|i: int|
        0 <= i < m.symbols.len() ==> m.index.contains_key(#[trigger] m.symbols[i]) && m.index[m.symbols[i]]
            == i
    &&& forall|k: Seq<char>|
        #[trigger] m.index.contains_key(k) ==> m.index[k] < m.symbols.len() && m.symbols[m.index[k] as int]
            == k
}

/// The node of symbol `s`, added at the end when there is none yet.
pub open spec fn node_for(m: SymbolGraphModel, s: Seq<char>) -> (SymbolGraphModel, usize) {
    if m.index.contains_key(s) {
        (m, m.index[s])
    } else {
        (
            SymbolGraphModel {
                symbols: m.symbols.push(s),
                index: m.index.insert(s, m.symbols.len() as usize),
                edges: m.edges,
            },
            m.symbols.len() as usize,
        )
    }
}

/// `caller` refers to `callee`: both get a node, and an edge joins two different nodes.
pub open spec fn link(m: SymbolGraphModel, caller: Seq<char>, callee: Seq<char>) -> SymbolGraphModel {
    let (m1, a) = node_for(m, caller);
    let (m2, b) = node_for(m1, callee);
    if a != b {
        SymbolGraphModel { symbols: m2.symbols, index: m2.index, edges: m2.edges.push((a, b)) }
    } else {
        m2
    }
}

pub open spec fn is_definition_role(occ: Occurrence) -> bool {
    occ.symbol_roles & ROLE_DEFINITION != 0
}

/// The range a definition spans: its enclosing range when it has one.
pub open spec fn definition_range(occ: Occurrence) -> Seq<i32> {
    if occ.enclosing_range@.len() > 0 {
        occ.enclosing_range@
    } else {
        occ.range@
    }
}

/// The definitions among `occs` that name a symbol, as (range, symbol), in order.
pub open spec fn graph_definitions(occs: Seq<Occurrence>) -> Seq<(Seq<i32>, Seq<char>)>
    decreases occs.len(),
{
    if occs.len() == 0 {
        Seq::empty()
    } else {
        let rest = graph_definitions(occs.drop_last());
        let o = occs.last();
        if is_definition_role(o) && o.symbol@.len() > 0 {
            rest.push((definition_range(o), o.symbol@))
        } else {
            rest
        }
    }
}

/// A reference that can make an edge: not a definition, and naming a non-local symbol.
pub open spec fn is_graph_reference(occ: Occurrence) -> bool {
    !is_definition_role(occ) && occ.symbol@.len() > 0 && !is_prefix("local "@, occ.symbol@)
}

/// The symbol of the smallest definition around the reference (see `enclosing_choice`).
pub open spec fn caller_of(defs: Seq<(Seq<i32>, Seq<char>)>, occ: Occurrence) -> Option<Seq<char>> {
    match enclosing_choice(
        occ.range@,
        defs.map_values(|d: (Seq<i32>, Seq<char>)| d.0),
        defs.len() as int,
    ) {
        Some(i) => Some(defs[i].1),
        None => None,
    }
}

/// One occurrence's effect: a reference inside a definition links the definition to it.
pub open spec fn reference_step(m: SymbolGraphModel, defs: Seq<(Seq<i32>, Seq<char>)>, occ: Occurrence) -> SymbolGraphModel {
    if is_graph_reference(occ) {
        match caller_of(defs, occ) {
            Some(c) => link(m, c, occ.symbol@),
            None => m,
        }
    } else {
        m
    }
}

pub open spec fn references_run(m: SymbolGraphModel, defs: Seq<(Seq<i32>, Seq<char>)>, occs: Seq<Occurrence>) -> SymbolGraphModel
    decreases occs.len(),
{
    if occs.len() == 0 {
        m
    } else {
        reference_step(references_run(m, defs, occs.drop_last()), defs, occs.last())
    }
}

/// The graph after one document: its references, against its definitions.
pub open spec fn document_run(m: SymbolGraphModel, doc: Document) -> SymbolGraphModel {
    references_run(m, graph_definitions(doc.occurrences@), doc.occurrences@)
}

/// The graph after the documents, in order.
pub open spec fn documents_run(m: SymbolGraphModel, docs: Seq<Document>) -> SymbolGraphModel
    decreases docs.len(),
{
    if docs.len() == 0 {
        m
    } else {
        document_run(documents_run(m, docs.drop_last()), docs.last())
    }
}

/// Every symbol that a reference of the document links parses without slicing inside a
/// character.
pub open spec fn document_parses(doc: Document) -> bool {
    let defs = graph_definitions(doc.occurrences@);
    forall|k: int|
        0 <= k < doc.occurrences@.len() && is_graph_reference(#[trigger] doc.occurrences@[k])
            ==> match caller_of(defs, doc.occurrences@[k]) {
            Some(c) => parse_ok(c) && parse_ok(doc.occurrences@[k].symbol@),
            None => true,
        }
}

/// The number of occurrences in the documents.
pub open spec fn occurrence_total(docs: Seq<Document>) -> nat
    decreases docs.len(),
{
    if docs.len() == 0 {
        0
    } else {
        occurrence_total(docs.drop_last()) + docs.last().occurrences@.len()
    }
}

proof fn lemma_occurrence_total_prefix(docs: Seq<Document>, i: int, j: int)
    requires
        0 <= i <= j <= docs.len(),
    ensures
        occurrence_total(docs.take(i)) <= occurrence_total(docs.take(j)),
    decreases j - i,
{
    if i < j {
        lemma_occurrence_total_prefix(docs, i, j - 1);
        assert(docs.take(j).drop_last() =~= docs.take(j - 1));
    }
}

/// A symbol is linked to another only when both have nodes; the growth of one step.
proof fn lemma_link(m: SymbolGraphModel, caller: Seq<char>, callee: Seq<char>)
    requires
        model_wf(m),
        m.symbols.len() + 2 < u32::MAX,
    ensures
        model_wf(link(m, caller, callee)),
        link(m, caller, callee).symbols.len() <= m.symbols.len() + 2,
        link(m, caller, callee).edges.len() <= m.edges.len() + 1,
{
    lemma_node_for(m, caller);
    let (m1, a) = node_for(m, caller);
    lemma_node_for(m1, callee);
    let (m2, b) = node_for(m1, callee);
    let r = link(m, caller, callee);
    if a != b {
        assert forall|e: int| 0 <= e < r.edges.len() implies #[trigger] r.edges[e].0 < r.symbols.len()
            && r.edges[e].1 < r.symbols.len() by {
            if e < m2.edges.len() {
                assert(r.edges[e] == m2.edges[e]);
            } else {
                assert(r.edges[e] == (a, b));
            }
        }
    }
}

proof fn lemma_node_for(m: SymbolGraphModel, s: Seq<char>)
    requires
        model_wf(m),
        m.symbols.len() < u32::MAX,
    ensures
        model_wf(node_for(m, s).0),
        node_for(m, s).1 < node_for(m, s).0.symbols.len(),
        m.symbols.len() <= node_for(m, s).0.symbols.len() <= m.symbols.len() + 1,
        node_for(m, s).0.edges == m.edges,
{
    if !m.index.contains_key(s) {
        let r = node_for(m, s).0;
        let n = m.symbols.len();
        assert forall|i: int| 0 <= i < r.symbols.len() implies r.index.contains_key(#[trigger] r.symbols[i])
            && r.index[r.symbols[i]] == i by {
            if i < n {
                assert(r.symbols[i] == m.symbols[i]);
                assert(m.index.contains_key(m.symbols[i]));
            }
        }
        assert forall|k: Seq<char>| #[trigger] r.index.contains_key(k) implies r.index[k] < r.symbols.len()
            && r.symbols[r.index[k] as int] == k by {
            if k != s {
                assert(m.index.contains_key(k));
            }
        }
    }
}

/// Is `s` a local symbol (`local ...`)?
fn is_local(s: &String) -> (r: bool)
    ensures
        r == is_prefix("local "@, s@),
{
    let c = str_chars(s.as_str());
    str_starts_with(c.as_slice(), "local ")
}

/// Whether every symbol that a reference of `document` links parses without slicing inside a
/// character (what `ScipGraph::build` asks of each document).
pub fn document_symbols_parse(document: &Document) -> (r: bool)
    ensures
        r == document_parses(*document),
{
    let occs = &document.occurrences;
    let mut defs: Vec<(Vec<i32>, &str)> = Vec::new();
    let mut i: usize = 0;
    while i < occs.len()
        invariant
            i <= occs@.len(),
            ({
                let gd = graph_definitions(occs@.take(i as int));
                &&& defs@.len() == gd.len()
                &&& forall|j: int|
                    0 <= j < gd.len() ==> (#[trigger] defs@[j]).0@ == gd[j].0 && defs@[j].1@
                        == gd[j].1
            }),
        decreases occs@.len() - i,
    {
        let occ = &occs[i];
        proof {
            assert(occs@.take(i as int + 1).drop_last() =~= occs@.take(i as int));
            assert(occs@.take(i as int + 1).last() == *occ);
        }
        if occ.symbol_roles & ROLE_DEFINITION != 0 && !occ.symbol.as_str().is_empty() {
            let range = if !occ.enclosing_range.is_empty() {
                occ.enclosing_range.clone()
            } else {
                occ.range.clone()
            };
            assert(range@ =~= definition_range(*occ));
            defs.push((range, occ.symbol.as_str()));
        }
        i = i + 1;
    }
    let ghost gd = graph_definitions(occs@);
    proof {
        assert(occs@.take(occs@.len() as int) =~= occs@);
        assert(def_ranges(defs@) =~= gd.map_values(|d: (Seq<i32>, Seq<char>)| d.0));
    }
    let mut k: usize = 0;
    while k < occs.len()
        invariant
            k <= occs@.len(),
            occs == &document.occurrences,
            gd == graph_definitions(occs@),
            defs@.len() == gd.len(),
            def_ranges(defs@) == gd.map_values(|d: (Seq<i32>, Seq<char>)| d.0),
            forall|j: int| 0 <= j < gd.len() ==> (#[trigger] defs@[j]).1@ == gd[j].1,
            forall|m: int|
                0 <= m < k && is_graph_reference(#[trigger] occs@[m]) ==> match caller_of(gd, occs@[m]) {
                    Some(c) => parse_ok(c) && parse_ok(occs@[m].symbol@),
                    None => true,
                },
        decreases occs@.len() - k,
    {
        let occ = &occs[k];
        proof {
            lemma_enclosing_choice_bounds(
                occ.range@,
                gd.map_values(|d: (Seq<i32>, Seq<char>)| d.0),
                gd.len() as int,
            );
        }
        if occ.symbol_roles & ROLE_DEFINITION == 0 && !occ.symbol.as_str().is_empty()
            && !is_local(&occ.symbol) {
            assert(is_graph_reference(*occ));
            match find_enclosing_definition(occ.range.as_slice(), defs.as_slice()) {
                Some(caller_symbol) => {
                    if !symbol_parses(caller_symbol) || !symbol_parses(occ.symbol.as_str()) {
                        assert(!document_parses(*document)) by {
                            assert(document.occurrences@[k as int] == *occ);
                        }
                        return false;
                    }
                },
                None => {},
            }
        }
        k = k + 1;
    }
    true
}

/// Whether every document of `index` meets `document_parses`.
pub fn index_symbols_parse(index: &Index) -> (r: bool)
    ensures
        r == forall|d: int| 0 <= d < index.documents@.len() ==> document_parses(#[trigger] index.documents@[d]),
{
    let mut d: usize = 0;
    while d < index.documents.len()
        invariant
            d <= index.documents@.len(),
            forall|e: int| 0 <= e < d ==> document_parses(#[trigger] index.documents@[e]),
        decreases index.documents@.len() - d,
    {
        if !document_symbols_parse(&index.documents[d]) {
            return false;
        }
        d = d + 1;
    }
    true
}

/// A graph of SCIP symbols.
pub struct ScipGraph {
    pub graph: Graph<NodeData, (), Directed, u32>,
    symbol_to_node: StringHashMap<usize>,
}

impl ScipGraph {
    /// The graph as values.
    pub closed spec fn model(&self) -> SymbolGraphModel {
        SymbolGraphModel {
            symbols: symbol_graph_nodes(self.graph).map_values(|d: NodeData| d.symbol@),
            index: self.symbol_to_node@,
            edges: symbol_graph_edges(self.graph),
        }
    }

    /// The node weights, in index order.
    pub closed spec fn nodes(&self) -> Seq<NodeData> {
        symbol_graph_nodes(self.graph)
    }

    /// Well-formedness: the model is consistent, and each node's type is its symbol's type.
    pub closed spec fn wf(&self) -> bool {
        let nodes = symbol_graph_nodes(self.graph);
        &&& model_wf(self.model())
        &&& nodes.len() <= u32::MAX
        &&& forall|i: int|
            0 <= i < nodes.len() ==> (#[trigger] nodes[i]).symbol_type == symbol_type_of(nodes[i].symbol@)
    }

    /// Each node holds the model's symbol and the type inferred from that symbol.
    pub proof fn law_nodes_carry_symbol_types(&self)
        requires
            self.wf(),
        ensures
            self.nodes().len() == self.model().symbols.len(),
            forall|i: int|
                0 <= i < self.nodes().len() ==> (#[trigger] self.nodes()[i]).symbol@ == self.model().symbols[i]
                    && self.nodes()[i].symbol_type == symbol_type_of(self.model().symbols[i]),
    {
    }

    pub fn new() -> (r: Self)
        ensures
            r.wf(),
            r.model() == (SymbolGraphModel {
                symbols: Seq::empty(),
                index: Map::empty(),
                edges: Seq::empty(),
            }),
    {
        let r = ScipGraph { graph: symbol_graph_new(), symbol_to_node: StringHashMap::new() };
        assert(r.model().symbols =~= Seq::<Seq<char>>::empty());
        r
    }

    fn get_or_create_node(&mut self, symbol: &str) -> (idx: usize)
        requires
            old(self).wf(),
            old(self).model().symbols.len() < u32::MAX,
            !old(self).model().index.contains_key(symbol@) ==> parse_ok(symbol@),
        ensures
            final(self).wf(),
            (final(self).model(), idx) == node_for(old(self).model(), symbol@),
    {
        proof {
            lemma_node_for(self.model(), symbol@);
        }
        match self.symbol_to_node.get(symbol) {
            Some(i) => {
                return *i;
            },
            None => {},
        }
        let scip_symbol = ScipSymbol::parse(symbol);
        let symbol_type = match &scip_symbol {
            Some(s) => s.infer_type(),
            None => SymbolType::Other,
        };
        let ghost old_nodes = symbol_graph_nodes(self.graph);
        let idx = symbol_graph_add_node(
            &mut self.graph,
            NodeData { symbol: symbol.to_owned(), symbol_type },
        );
        self.symbol_to_node.insert(symbol.to_owned(), idx);
        proof {
            let nodes = symbol_graph_nodes(self.graph);
            assert(nodes == old_nodes.push(nodes[idx as int]));
            assert(self.model().symbols =~= old(self).model().symbols.push(symbol@));
            assert forall|i: int| 0 <= i < nodes.len() implies (#[trigger] nodes[i]).symbol_type
                == symbol_type_of(nodes[i].symbol@) by {
                if i < idx {
                    assert(nodes[i] == old_nodes[i]);
                }
            }
        }
        idx
    }

    fn process_document(&mut self, document: &Document)
        requires
            old(self).wf(),
            document_parses(*document),
            old(self).model().symbols.len() + 2 * document.occurrences@.len() < u32::MAX,
            old(self).model().edges.len() + document.occurrences@.len() < u32::MAX,
        ensures
            final(self).wf(),
            final(self).model() == document_run(old(self).model(), *document),
    {
        let occs = &document.occurrences;
        // 1. The definitions of this document, each with the range it spans
        let mut defs: Vec<(Vec<i32>, &str)> = Vec::new();
        let mut i: usize = 0;
        while i < occs.len()
            invariant
                i <= occs@.len(),
                ({
                    let gd = graph_definitions(occs@.take(i as int));
                    &&& defs@.len() == gd.len()
                    &&& forall|j: int|
                        0 <= j < gd.len() ==> (#[trigger] defs@[j]).0@ == gd[j].0 && defs@[j].1@
                            == gd[j].1
                }),
            decreases occs@.len() - i,
        {
            let occ = &occs[i];
            proof {
                assert(occs@.take(i as int + 1).drop_last() =~= occs@.take(i as int));
                assert(occs@.take(i as int + 1).last() == *occ);
            }
            if occ.symbol_roles & ROLE_DEFINITION != 0 && !occ.symbol.as_str().is_empty() {
                let range = if !occ.enclosing_range.is_empty() {
                    occ.enclosing_range.clone()
                } else {
                    occ.range.clone()
                };
                assert(range@ =~= definition_range(*occ));
                defs.push((range, occ.symbol.as_str()));
            }
            i = i + 1;
        }
        let ghost gd = graph_definitions(occs@);
        proof {
            assert(occs@.take(occs@.len() as int) =~= occs@);
            assert(def_ranges(defs@) =~= gd.map_values(|d: (Seq<i32>, Seq<char>)| d.0));
        }
        // 2. The references, each linked from the smallest definition around it
        let ghost m0 = self.model();
        let mut k: usize = 0;
        while k < occs.len()
            invariant
                k <= occs@.len(),
                self.wf(),
                self.model() == references_run(m0, gd, occs@.take(k as int)),
                self.model().symbols.len() <= m0.symbols.len() + 2 * k,
                self.model().edges.len() <= m0.edges.len() + k,
                m0.symbols.len() + 2 * occs@.len() < u32::MAX,
                m0.edges.len() + occs@.len() < u32::MAX,
                document_parses(*document),
                occs == &document.occurrences,
                gd == graph_definitions(occs@),
                defs@.len() == gd.len(),
                def_ranges(defs@) == gd.map_values(|d: (Seq<i32>, Seq<char>)| d.0),
                forall|j: int| 0 <= j < gd.len() ==> (#[trigger] defs@[j]).1@ == gd[j].1,
            decreases occs@.len() - k,
        {
            let occ = &occs[k];
            proof {
                assert(occs@.take(k as int + 1).drop_last() =~= occs@.take(k as int));
                assert(occs@.take(k as int + 1).last() == *occ);
                lemma_enclosing_choice_bounds(
                    occ.range@,
                    gd.map_values(|d: (Seq<i32>, Seq<char>)| d.0),
                    gd.len() as int,
                );
            }
            if occ.symbol_roles & ROLE_DEFINITION == 0 && !occ.symbol.as_str().is_empty()
                && !is_local(&occ.symbol) {
                // The smallest definition range that encloses the reference
                match find_enclosing_definition(occ.range.as_slice(), defs.as_slice()) {
                    Some(caller_symbol) => {
                        proof {
                            assert(is_graph_reference(*occ));
                            assert(document.occurrences@[k as int] == *occ);
                        }
                        let ghost before = self.model();
                        let caller_idx = self.get_or_create_node(caller_symbol);
                        proof {
                            lemma_node_for(before, caller_symbol@);
                        }
                        let callee_idx = self.get_or_create_node(occ.symbol.as_str());
                        proof {
                            lemma_node_for(node_for(before, caller_symbol@).0, occ.symbol@);
                            lemma_link(before, caller_symbol@, occ.symbol@);
                        }
                        if caller_idx != callee_idx {
                            symbol_graph_add_edge(&mut self.graph, caller_idx, callee_idx);
                        }
                    },
                    None => {},
                }
            }
            k = k + 1;
        }
        proof {
            assert(occs@.take(occs@.len() as int) =~= occs@);
        }
    }

    /// Add the references of every document of the index, in order.
    pub fn build(&mut self, index: &Index)
        requires
            old(self).wf(),
            forall|d: int| 0 <= d < index.documents@.len() ==> document_parses(#[trigger] index.documents@[d]),
            old(self).model().symbols.len() + 2 * occurrence_total(index.documents@) < u32::MAX,
            old(self).model().edges.len() + occurrence_total(index.documents@) < u32::MAX,
        ensures
            final(self).wf(),
            final(self).model() == documents_run(old(self).model(), index.documents@),
    {
        let docs = &index.documents;
        let ghost m0 = self.model();
        let mut d: usize = 0;
        while d < docs.len()
            invariant
                d <= docs@.len(),
                self.wf(),
                self.model() == documents_run(m0, docs@.take(d as int)),
                self.model().symbols.len() <= m0.symbols.len() + 2 * occurrence_total(docs@.take(d as int)),
                self.model().edges.len() <= m0.edges.len() + occurrence_total(docs@.take(d as int)),
                m0.symbols.len() + 2 * occurrence_total(docs@) < u32::MAX,
                m0.edges.len() + occurrence_total(docs@) < u32::MAX,
                forall|j: int| 0 <= j < docs@.len() ==> document_parses(#[trigger] docs@[j]),
            decreases docs@.len() - d,
        {
            proof {
                assert(docs@.take(d as int + 1).drop_last() =~= docs@.take(d as int));
                assert(docs@.take(d as int + 1).last() == docs@[d as int]);
                lemma_occurrence_total_prefix(docs@, d as int + 1, docs@.len() as int);
                assert(docs@.take(docs@.len() as int) =~= docs@);
            }
            let ghost before = self.model();
            self.process_document(&docs[d]);
            proof {
                lemma_document_growth(before, docs@[d as int]);
            }
            d = d + 1;
        }
        proof {
            assert(docs@.take(docs@.len() as int) =~= docs@);
        }
    }
}

/// One document adds at most two nodes and one edge per occurrence.
proof fn lemma_document_growth(m: SymbolGraphModel, doc: Document)
    requires
        model_wf(m),
        m.symbols.len() + 2 * doc.occurrences@.len() < u32::MAX,
    ensures
        document_run(m, doc).symbols.len() <= m.symbols.len() + 2 * doc.occurrences@.len(),
        document_run(m, doc).edges.len() <= m.edges.len() + doc.occurrences@.len(),
{
    lemma_references_growth(m, graph_definitions(doc.occurrences@), doc.occurrences@);
}

proof fn lemma_references_growth(m: SymbolGraphModel, defs: Seq<(Seq<i32>, Seq<char>)>, occs: Seq<Occurrence>)
    requires
        model_wf(m),
        m.symbols.len() + 2 * occs.len() < u32::MAX,
    ensures
        model_wf(references_run(m, defs, occs)),
        references_run(m, defs, occs).symbols.len() <= m.symbols.len() + 2 * occs.len(),
        references_run(m, defs, occs).edges.len() <= m.edges.len() + occs.len(),
    decreases occs.len(),
{
    if occs.len() > 0 {
        lemma_references_growth(m, defs, occs.drop_last());
        let prev = references_run(m, defs, occs.drop_last());
        let occ = occs.last();
        if is_graph_reference(occ) {
            match caller_of(defs, occ) {
                Some(c) => lemma_link(prev, c, occ.symbol@),
                None => {},
            }
        }
    }
}

/// No edge joins a node to itself.
pub open spec fn no_self_loops(m: SymbolGraphModel) -> bool {
    forall|e: int| 0 <= e < m.edges.len() ==> (#[trigger] m.edges[e]).0 != m.edges[e].1
}

/// Building never makes an edge from a node to itself: a definition that refers to its own
/// symbol adds no edge.
pub proof fn law_symbol_graph_no_self_loops(m: SymbolGraphModel, docs: Seq<Document>)
    requires
        no_self_loops(m),
    ensures
        no_self_loops(documents_run(m, docs)),
    decreases docs.len(),
{
    if docs.len() > 0 {
        law_symbol_graph_no_self_loops(m, docs.drop_last());
        lemma_references_no_self_loops(
            documents_run(m, docs.drop_last()),
            graph_definitions(docs.last().occurrences@),
            docs.last().occurrences@,
        );
    }
}

proof fn lemma_references_no_self_loops(m: SymbolGraphModel, defs: Seq<(Seq<i32>, Seq<char>)>, occs: Seq<Occurrence>)
    requires
        no_self_loops(m),
    ensures
        no_self_loops(references_run(m, defs, occs)),
    decreases occs.len(),
{
    if occs.len() > 0 {
        lemma_references_no_self_loops(m, defs, occs.drop_last());
        let prev = references_run(m, defs, occs.drop_last());
        let r = references_run(m, defs, occs);
        let occ = occs.last();
        if is_graph_reference(occ) {
            match caller_of(defs, occ) {
                Some(c) => {
                    let (m1, a) = node_for(prev, c);
                    let (m2, b) = node_for(m1, occ.symbol@);
                    assert(m2.edges == prev.edges);
                    assert forall|e: int| 0 <= e < r.edges.len() implies (#[trigger] r.edges[e]).0 != r.edges[e].1 by {
                        if e < prev.edges.len() {
                            assert(r.edges[e] == prev.edges[e]);
                        }
                    }
                },
                None => {},
            }
        }
    }
}

/// Each symbol has exactly one node: building keeps the symbol index consistent, whatever
/// the documents (within petgraph's index space).
pub proof fn law_symbol_graph_one_node_per_symbol(m: SymbolGraphModel, docs: Seq<Document>)
    requires
        model_wf(m),
        m.symbols.len() + 2 * occurrence_total(docs) < u32::MAX,
    ensures
        model_wf(documents_run(m, docs)),
        forall|i: int, j: int|
            0 <= i < j < documents_run(m, docs).symbols.len() ==> documents_run(m, docs).symbols[i]
                != documents_run(m, docs).symbols[j],
    decreases docs.len(),
{
    let r = documents_run(m, docs);
    if docs.len() > 0 {
        let d = docs.drop_last();
        assert(occurrence_total(d) <= occurrence_total(docs));
        law_symbol_graph_one_node_per_symbol(m, d);
        lemma_documents_growth(m, d);
        lemma_references_growth(documents_run(m, d), graph_definitions(docs.last().occurrences@), docs.last().occurrences@);
    }
    assert forall|i: int, j: int| 0 <= i < j < r.symbols.len() implies r.symbols[i] != r.symbols[j] by {
        assert(r.index[r.symbols[i]] == i);
        assert(r.index[r.symbols[j]] == j);
    }
}

proof fn lemma_documents_growth(m: SymbolGraphModel, docs: Seq<Document>)
    requires
        model_wf(m),
        m.symbols.len() + 2 * occurrence_total(docs) < u32::MAX,
    ensures
        documents_run(m, docs).symbols.len() <= m.symbols.len() + 2 * occurrence_total(docs),
    decreases docs.len(),
{
    if docs.len() > 0 {
        let d = docs.drop_last();
        lemma_documents_growth(m, d);
        law_symbol_graph_one_node_per_symbol(m, d);
        lemma_document_growth(documents_run(m, d), docs.last());
    }
}

} // verus!
