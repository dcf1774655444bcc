use context_footprint::domain::edge::EdgeKind;
use context_footprint::domain::graph::ContextGraph;
use context_footprint::domain::node::{
    DocScore, FunctionNode, Node, NodeCore, SourceSpan, Visibility,
};
use context_footprint::graph::{index_symbols_parse, ScipGraph};
use context_footprint::scip::{Document, Index, Occurrence, ROLE_DEFINITION};
use context_footprint::symbol::{symbol_parses, SymbolType};

const F: &str = "scip-python python pkg 1.0 mod/f().";
const G: &str = "scip-python python pkg 1.0 mod/G#";
const M: &str = "scip-python python pkg 1.0 mod/G#run().";

fn definition(symbol: &str, range: Vec<i32>, enclosing: Vec<i32>) -> Occurrence {
    Occurrence {
        range,
        symbol: symbol.to_string(),
        symbol_roles: ROLE_DEFINITION,
        enclosing_range: enclosing,
    }
}

fn reference(symbol: &str, range: Vec<i32>) -> Occurrence {
    Occurrence { range, symbol: symbol.to_string(), symbol_roles: 0, enclosing_range: vec![] }
}

fn index_of(occurrences: Vec<Occurrence>) -> Index {
    Index {
        metadata: None,
        documents: vec![Document {
            relative_path: "mod.py".to_string(),
            language: "python".to_string(),
            occurrences,
            symbols: vec![],
        }],
        external_symbols: vec![],
    }
}

fn symbols_of(g: &ScipGraph) -> Vec<(String, SymbolType)> {
    g.graph.node_weights().map(|n| (n.symbol.clone(), n.symbol_type)).collect()
}

#[test]
fn reference_inside_definition_makes_edge() {
    // f spans lines 0-5 and calls G#run() on line 2.
    let index = index_of(vec![
        definition(F, vec![0, 4, 5], vec![0, 0, 5, 10]),
        reference(M, vec![2, 4, 10]),
    ]);
    let mut g = ScipGraph::new();
    g.build(&index);
    assert_eq!(
        symbols_of(&g),
        vec![(F.to_string(), SymbolType::Function), (M.to_string(), SymbolType::Method)]
    );
    assert_eq!(g.graph.edge_count(), 1);
    let e = g.graph.raw_edges()[0].clone();
    assert_eq!((e.source().index(), e.target().index()), (0, 1));
}

#[test]
fn smallest_enclosing_definition_is_the_caller() {
    // Class G spans lines 0-10, its method run() lines 2-4; a reference on line 3 to f.
    let index = index_of(vec![
        definition(G, vec![0, 6, 7], vec![0, 0, 10, 0]),
        definition(M, vec![2, 8, 11], vec![2, 4, 4, 0]),
        reference(F, vec![3, 8, 9]),
    ]);
    let mut g = ScipGraph::new();
    g.build(&index);
    assert_eq!(
        symbols_of(&g),
        vec![(M.to_string(), SymbolType::Method), (F.to_string(), SymbolType::Function)]
    );
    assert_eq!(g.graph.edge_count(), 1);
}

#[test]
fn self_reference_and_local_and_outside_make_no_edge() {
    let index = index_of(vec![
        definition(F, vec![0, 4, 5], vec![0, 0, 5, 10]),
        reference(F, vec![3, 4, 5]),
        reference("local 0", vec![3, 8, 9]),
        reference(M, vec![9, 0, 3]),
    ]);
    let mut g = ScipGraph::new();
    g.build(&index);
    // The self-reference creates f's node but no edge; the others create nothing.
    assert_eq!(symbols_of(&g), vec![(F.to_string(), SymbolType::Function)]);
    assert_eq!(g.graph.edge_count(), 0);
}

#[test]
fn repeated_references_make_parallel_edges_on_shared_nodes() {
    let index = index_of(vec![
        definition(F, vec![0, 4, 5], vec![0, 0, 5, 10]),
        reference(M, vec![1, 4, 7]),
        reference(M, vec![2, 4, 7]),
    ]);
    let mut g = ScipGraph::new();
    g.build(&index);
    assert_eq!(g.graph.node_count(), 2);
    assert_eq!(g.graph.edge_count(), 2);
}

#[test]
fn definition_range_used_when_no_enclosing_range() {
    // Without an enclosing range the definition covers only its name: line 0, columns 0-20.
    let index = index_of(vec![
        definition(F, vec![0, 0, 20], vec![]),
        reference(M, vec![0, 5, 8]),
        reference(G, vec![1, 5, 8]),
    ]);
    let mut g = ScipGraph::new();
    g.build(&index);
    assert_eq!(g.graph.node_count(), 2);
    assert_eq!(g.graph.edge_count(), 1);
}

fn function(name: &str) -> Node {
    let core = NodeCore::new(
        0,
        name.to_string(),
        None,
        1,
        SourceSpan { start_line: 0, start_column: 0, end_line: 0, end_column: 1 },
        DocScore::zero(),
        false,
        "a.py".to_string(),
    );
    Node::Function(FunctionNode {
        core,
        parameters: vec![],
        is_async: false,
        is_generator: false,
        visibility: Visibility::Public,
        return_types: vec![],
        is_interface_method: false,
        is_constructor: false,
        is_di_wired: false,
    })
}

#[test]
fn neighbors_report_latest_edge_kind() {
    let mut g = ContextGraph::new();
    let a = g.add_node("a".to_string(), function("a"));
    let b = g.add_node("b".to_string(), function("b"));
    let c = g.add_node("c".to_string(), function("c"));
    g.add_edge(a, b, EdgeKind::Call);
    g.add_edge(a, c, EdgeKind::Read);
    g.add_edge(a, b, EdgeKind::Write);
    // Newest edge first; both edges to b report the newest kind between a and b.
    assert_eq!(
        g.neighbors(a),
        vec![(b, EdgeKind::Write), (c, EdgeKind::Read), (b, EdgeKind::Write)]
    );
    assert_eq!(g.neighbors(c), vec![]);
}

#[test]
fn symbol_for_node_is_none_once_a_later_node_takes_the_symbol() {
    let mut g = ContextGraph::new();
    let first = g.add_node("s".to_string(), function("first"));
    let second = g.add_node("s".to_string(), function("second"));
    assert_eq!(g.symbol_for_node(first), None);
    assert_eq!(g.symbol_for_node(second).map(|s| s.as_str()), Some("s"));
    assert_eq!(g.get_node_by_symbol("s"), Some(second));
}

#[test]
fn symbols_parse_unless_a_scan_meets_a_wide_character() {
    assert!(symbol_parses("local 3"));
    assert!(symbol_parses("scip-python python pkg 1.0 `mod`/f()."));
    assert!(!symbol_parses("scip-python python pkg 1.0 é/f()."));
}

#[test]
fn an_index_parses_when_its_linked_symbols_do() {
    let good = index_of(vec![
        definition("scip-python python pkg 1.0 mod/f().", vec![0, 4, 5], vec![0, 0, 5, 10]),
        reference("scip-python python pkg 1.0 mod/g().", vec![2, 4, 10]),
    ]);
    assert!(index_symbols_parse(&good));
    let bad = index_of(vec![
        definition("scip-python python pkg 1.0 mod/f().", vec![0, 4, 5], vec![0, 0, 5, 10]),
        reference("scip-python python pkg 1.0 é/g().", vec![2, 4, 10]),
    ]);
    assert!(!index_symbols_parse(&bad));
}
