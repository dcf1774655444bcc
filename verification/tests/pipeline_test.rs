use context_footprint::adapters::doc_scorer::heuristic::HeuristicDocScorer;
use context_footprint::adapters::doc_scorer::simple::SimpleDocScorer;
use context_footprint::adapters::size_function::tiktoken::TiktokenSizeFunction;
use context_footprint::domain::builder::GraphBuilder;
use context_footprint::domain::graph::ContextGraph;
use context_footprint::domain::node::{DocScore, SourceSpan as NodeSpan};
use context_footprint::domain::policy::{
    DocumentationScorer, NodeInfo, NodeInfoModel, NodeType, PruningParams, SizeFunction,
};
use context_footprint::domain::edge::EdgeKind;
use context_footprint::domain::semantic::{
    DocumentSemantics, FunctionDetails, FunctionModifiers, Mutability, ParameterInfo,
    ReferenceRole, SemanticData, SourceLocation, SourceSpan, SymbolDefinition, SymbolDetails,
    SymbolKind, SymbolReference, VariableDetails, VariableKind, Visibility,
};
use context_footprint::domain::solver::CfSolver;
use std::sync::Arc;
use vstd::seq::Seq;

const DUMMY_SOURCE: &str = "def foo(): pass\n";

/// Size function that returns a fixed value.
struct MockSizeFunction {
    fixed_size: u32,
}

impl MockSizeFunction {
    fn new() -> Self {
        Self { fixed_size: 10 }
    }

    fn with_size(fixed_size: u32) -> Self {
        Self { fixed_size }
    }
}

// The trait's model methods are only read by the verifier; a mock states its own model.
impl SizeFunction for MockSizeFunction {
    fn accepts(&self, _source: Seq<char>, _span: NodeSpan) -> bool {
        true
    }

    fn spec_compute(&self, _source: Seq<char>, _span: NodeSpan, _docs: Seq<Seq<char>>) -> u32 {
        self.fixed_size
    }

    fn accepts_span(&self, _source: &str, _span: &NodeSpan) -> bool {
        true
    }

    fn compute(&self, _source: &str, _span: &NodeSpan, _doc_texts: &[String]) -> u32 {
        self.fixed_size
    }
}

/// Documentation scorer with a configurable score for any documentation text.
struct MockDocScorer {
    default_score: DocScore,
}

impl MockDocScorer {
    fn new() -> Self {
        Self { default_score: DocScore::new(1, 2) }
    }

    fn with_score(default_score: DocScore) -> Self {
        Self { default_score }
    }
}

impl DocumentationScorer for MockDocScorer {
    fn spec_score(&self, _info: NodeInfoModel, doc: Option<Seq<char>>) -> DocScore {
        match doc {
            Some(_) => self.default_score,
            None => DocScore::zero(),
        }
    }

    fn score(&self, _node_info: &NodeInfo, doc_text: Option<&str>) -> DocScore {
        match doc_text {
            Some(_) => self.default_score,
            None => DocScore::zero(),
        }
    }
}

fn value(s: DocScore) -> f64 {
    s.numerator as f64 / s.denominator as f64
}

fn default_location() -> SourceLocation {
    SourceLocation { file_path: "test.py".to_string(), line: 0, column: 0 }
}

fn function_def(
    symbol_id: &str,
    name: &str,
    documentation: Vec<String>,
    parameters: Vec<ParameterInfo>,
    return_type: Option<String>,
) -> SymbolDefinition {
    SymbolDefinition {
        symbol_id: symbol_id.to_string(),
        kind: SymbolKind::Function,
        name: name.to_string(),
        display_name: name.to_string(),
        location: default_location(),
        span: SourceSpan { start_line: 0, start_column: 0, end_line: 5, end_column: 20 },
        enclosing_symbol: None,
        is_external: false,
        documentation,
        details: SymbolDetails::Function(FunctionDetails {
            parameters,
            return_types: return_type.into_iter().collect(),
            throws: vec![],
            type_params: vec![],
            modifiers: FunctionModifiers {
                is_async: false,
                is_generator: false,
                is_static: false,
                is_abstract: false,
                is_constructor: false,
                visibility: Visibility::Public,
            },
        }),
    }
}

fn call_reference(target: &str, enclosing: &str) -> SymbolReference {
    SymbolReference {
        target_symbol: target.to_string(),
        location: default_location(),
        enclosing_symbol: enclosing.to_string(),
        role: ReferenceRole::Call,
        context: None,
    }
}

fn variable_def(
    symbol_id: &str,
    name: &str,
    documentation: Vec<String>,
    var_type: Option<String>,
    mutability: Mutability,
) -> SymbolDefinition {
    SymbolDefinition {
        symbol_id: symbol_id.to_string(),
        kind: SymbolKind::Variable,
        name: name.to_string(),
        display_name: name.to_string(),
        location: default_location(),
        span: SourceSpan { start_line: 0, start_column: 0, end_line: 5, end_column: 20 },
        enclosing_symbol: None,
        is_external: false,
        documentation,
        details: SymbolDetails::Variable(VariableDetails {
            var_type,
            mutability,
            variable_kind: VariableKind::Global,
            visibility: Visibility::Public,
        }),
    }
}

fn access_reference(target: &str, enclosing: &str, role: ReferenceRole) -> SymbolReference {
    SymbolReference {
        target_symbol: target.to_string(),
        location: default_location(),
        enclosing_symbol: enclosing.to_string(),
        role,
        context: None,
    }
}

/// A reader and two writers of one mutable global.
fn create_semantic_data_with_shared_state(mutability: Mutability) -> SemanticData {
    let sym_r = "sym::reader";
    let sym_w1 = "sym::writer1";
    let sym_w2 = "sym::writer2";
    let sym_v = "sym::global_var";
    project(vec![DocumentSemantics {
        relative_path: "state.py".into(),
        language: "python".into(),
        definitions: vec![
            function_def(sym_r, "reader", vec![], vec![], None),
            function_def(sym_w1, "writer1", vec![], vec![], None),
            function_def(sym_w2, "writer2", vec![], vec![], None),
            variable_def(sym_v, "global_var", vec![], Some("int".into()), mutability),
        ],
        references: vec![
            access_reference(sym_v, sym_r, ReferenceRole::Read),
            access_reference(sym_v, sym_w1, ReferenceRole::Write),
            access_reference(sym_v, sym_w2, ReferenceRole::Write),
        ],
    }])
}

fn project(documents: Vec<DocumentSemantics>) -> SemanticData {
    SemanticData { project_root: "/test".into(), documents, external_symbols: vec![] }
}

/// One file, two symbols (func_a, func_b); func_a calls func_b.
fn create_semantic_data_simple() -> SemanticData {
    let sym_a = "sym::func_a";
    let sym_b = "sym::func_b";
    project(vec![DocumentSemantics {
        relative_path: "main.py".into(),
        language: "python".into(),
        definitions: vec![
            function_def(
                sym_a,
                "func_a",
                vec!["Doc for A".into()],
                vec![ParameterInfo {
                    name: "x".into(),
                    param_type: Some("int".into()),
                    has_default: false,
                    is_variadic: false,
                }],
                Some("int".into()),
            ),
            function_def(sym_b, "func_b", vec![], vec![], None),
        ],
        references: vec![call_reference(sym_b, sym_a)],
    }])
}

/// Two documents: func_main (main.py) calls func_util (utils.py).
fn create_semantic_data_two_files() -> SemanticData {
    let sym_main = "sym::main::func_main";
    let sym_util = "sym::utils::func_util";
    project(vec![
        DocumentSemantics {
            relative_path: "main.py".into(),
            language: "python".into(),
            definitions: vec![function_def(
                sym_main,
                "func_main",
                vec!["Main".into()],
                vec![],
                Some("()".into()),
            )],
            references: vec![call_reference(sym_util, sym_main)],
        },
        DocumentSemantics {
            relative_path: "utils.py".into(),
            language: "python".into(),
            definitions: vec![function_def(sym_util, "func_util", vec![], vec![], None)],
            references: vec![],
        },
    ])
}

/// Cycle: a -> b -> c -> a.
fn create_semantic_data_with_cycle() -> SemanticData {
    let (a, b, c) = ("sym::a", "sym::b", "sym::c");
    project(vec![DocumentSemantics {
        relative_path: "cycle.py".into(),
        language: "python".into(),
        definitions: vec![
            function_def(a, "a", vec![], vec![], None),
            function_def(b, "b", vec![], vec![], None),
            function_def(c, "c", vec![], vec![], None),
        ],
        references: vec![call_reference(b, a), call_reference(c, b), call_reference(a, c)],
    }])
}

/// Chain chain_a -> chain_b -> chain_c with chain_b well documented.
fn create_semantic_data_chain_well_documented_middle() -> SemanticData {
    let (a, b, c) = ("sym::chain_a", "sym::chain_b", "sym::chain_c");
    project(vec![DocumentSemantics {
        relative_path: "chain.py".into(),
        language: "python".into(),
        definitions: vec![
            function_def(a, "chain_a", vec![], vec![], None),
            function_def(b, "chain_b", vec!["Well documented.".into()], vec![], Some("int".into())),
            function_def(c, "chain_c", vec![], vec![], None),
        ],
        references: vec![call_reference(b, a), call_reference(c, b)],
    }])
}

fn sources_for(data: &SemanticData) -> Vec<String> {
    data.documents.iter().map(|_| DUMMY_SOURCE.to_string()).collect()
}

fn build_with<S: SizeFunction, D: DocumentationScorer>(
    data: SemanticData,
    size_fn: S,
    scorer: D,
) -> ContextGraph {
    let sources = sources_for(&data);
    GraphBuilder::new(size_fn, scorer).build(data, &sources)
}

#[test]
fn test_build_graph_from_semantic_data_simple() {
    let graph = build_with(create_semantic_data_simple(), MockSizeFunction::new(), MockDocScorer::new());
    assert_eq!(graph.node_count(), 2);
    assert!(graph.edge_count() >= 1);
    assert!(graph.get_node_by_symbol("sym::func_a").is_some());
    assert!(graph.get_node_by_symbol("sym::func_b").is_some());
}

#[test]
fn test_build_graph_two_files() {
    let graph =
        build_with(create_semantic_data_two_files(), MockSizeFunction::new(), MockDocScorer::new());
    assert_eq!(graph.node_count(), 2);
    assert!(graph.edge_count() >= 1);
}

#[test]
fn test_three_pass_creates_nodes_then_edges() {
    let graph = build_with(
        create_semantic_data_simple(),
        MockSizeFunction::with_size(5),
        MockDocScorer::new(),
    );
    assert_eq!(graph.node_count(), 2, "Pass 1: two nodes");
    assert!(graph.edge_count() >= 1, "Pass 2/3: at least one edge");
    for i in 0..graph.node_count() {
        assert_eq!(graph.node(i).node_core().context_size, 5, "SizeFunction applied");
    }
}

#[test]
fn test_cycle_fixture_produces_cycle_edges() {
    let graph =
        build_with(create_semantic_data_with_cycle(), MockSizeFunction::new(), MockDocScorer::new());
    assert_eq!(graph.node_count(), 3);
    assert!(graph.edge_count() >= 3);
}

#[test]
fn test_library_accessible() {
    let graph = ContextGraph::new();
    assert_eq!(graph.node_count(), 0);
}

#[test]
fn test_mock_size_function() {
    let f = MockSizeFunction::with_size(42);
    let span = NodeSpan { start_line: 0, start_column: 0, end_line: 1, end_column: 5 };
    assert_eq!(f.compute("hello", &span, &[]), 42);
}

#[test]
fn test_mock_doc_scorer() {
    let s = MockDocScorer::with_score(DocScore::new(4, 5));
    let info = NodeInfo {
        node_type: NodeType::Function,
        name: "foo".into(),
        signature: None,
        language: None,
    };
    assert_eq!(value(s.score(&info, Some("doc"))), 0.8);
    assert_eq!(value(s.score(&info, None)), 0.0);
}

#[test]
fn test_academic_vs_strict_different_cf() {
    // Chain A -> B -> C with B well documented: academic stops at B, strict goes on to C.
    let graph = build_with(
        create_semantic_data_chain_well_documented_middle(),
        MockSizeFunction::new(),
        MockDocScorer::new(),
    );
    let start_idx = graph.get_node_by_symbol("sym::chain_a").unwrap();
    let graph_arc = Arc::new(graph);
    let solver_academic =
        CfSolver::new(Arc::clone(&graph_arc), PruningParams::academic(DocScore::new(1, 2)));
    let solver_strict = CfSolver::new(graph_arc, PruningParams::strict(DocScore::new(4, 5)));

    let cf_academic = solver_academic.compute_cf(&[start_idx], None);
    let cf_strict = solver_strict.compute_cf(&[start_idx], None);

    assert!(
        cf_academic.reachable_set.len() < cf_strict.reachable_set.len()
            || cf_academic.total_context_size < cf_strict.total_context_size,
        "Academic should produce smaller footprint than Strict (stops at B)"
    );
}

#[test]
fn test_heuristic_scorer_vs_simple_scorer() {
    let graph_simple =
        build_with(create_semantic_data_simple(), MockSizeFunction::new(), SimpleDocScorer::new());
    let graph_heuristic = build_with(
        create_semantic_data_simple(),
        MockSizeFunction::new(),
        HeuristicDocScorer::new(),
    );

    assert_eq!(graph_simple.node_count(), graph_heuristic.node_count());
    assert!(graph_simple.get_node_by_symbol("sym::func_a").is_some());
    assert!(graph_heuristic.get_node_by_symbol("sym::func_a").is_some());

    // "Doc for A" is short: the heuristic scorer gives less than 1, the simple one gives 1.
    let idx = graph_simple.get_node_by_symbol("sym::func_a").unwrap();
    let score_simple = value(graph_simple.node(idx).node_core().doc_score);
    let idx_h = graph_heuristic.get_node_by_symbol("sym::func_a").unwrap();
    let score_heuristic = value(graph_heuristic.node(idx_h).node_core().doc_score);
    assert_ne!(score_simple, score_heuristic);
}

#[test]
fn test_strict_policy_smaller_context_footprint() {
    let graph = build_with(
        create_semantic_data_simple(),
        MockSizeFunction::with_size(10),
        MockDocScorer::with_score(DocScore::new(4, 5)),
    );
    let start_idx = graph.get_node_by_symbol("sym::func_a").unwrap();
    let solver = CfSolver::new(Arc::new(graph), PruningParams::strict(DocScore::new(4, 5)));
    let cf_strict = solver.compute_cf(&[start_idx], None);

    assert!(cf_strict.total_context_size >= 10);
    assert!(!cf_strict.reachable_set.is_empty());
}

#[test]
fn built_node_ids_are_indices_and_edges_join_distinct_nodes() {
    let graph =
        build_with(create_semantic_data_with_cycle(), MockSizeFunction::new(), MockDocScorer::new());
    for i in 0..graph.node_count() {
        assert_eq!(graph.node(i).node_core().id as usize, i);
        for (target, _) in graph.outgoing_edges(i) {
            assert_ne!(target, i);
        }
    }
}

#[test]
fn footprint_is_sum_of_reached_sizes() {
    // Sizes 10 each; strict pruning reaches the whole cycle a -> b -> c -> a.
    let graph =
        build_with(create_semantic_data_with_cycle(), MockSizeFunction::new(), MockDocScorer::new());
    let start = graph.get_node_by_symbol("sym::a").unwrap();
    let graph = Arc::new(graph);
    let solver = CfSolver::new(Arc::clone(&graph), PruningParams::strict(DocScore::new(4, 5)));
    let cf = solver.compute_cf(&[start], None);
    let sum: u32 = cf
        .reachable_nodes_ordered
        .iter()
        .map(|id| graph.node(*id as usize).node_core().context_size)
        .sum();
    assert_eq!(cf.reachable_nodes_ordered.len(), 3);
    assert_eq!(cf.total_context_size, sum);
    assert_eq!(cf.total_context_size, 30);
}

#[test]
fn symbol_for_node_follows_the_symbol_map() {
    let graph =
        build_with(create_semantic_data_simple(), MockSizeFunction::new(), MockDocScorer::new());
    let a = graph.get_node_by_symbol("sym::func_a").unwrap();
    assert_eq!(graph.symbol_for_node(a).map(|s| s.as_str()), Some("sym::func_a"));
}

#[test]
fn can_build_checks_sources_and_enclosing_chains() {
    let data = create_semantic_data_simple();
    let builder = GraphBuilder::new(MockSizeFunction::new(), MockDocScorer::new());
    assert!(builder.can_build(&data, &sources_for(&data)));
    assert!(!builder.can_build(&data, &vec![]));

    // Two definitions that enclose each other: resolving a reference to either never ends.
    let mut cyclic = create_semantic_data_simple();
    cyclic.documents[0].definitions[0].kind = SymbolKind::Parameter;
    cyclic.documents[0].definitions[0].enclosing_symbol = Some("sym::func_b".to_string());
    cyclic.documents[0].definitions[1].kind = SymbolKind::Parameter;
    cyclic.documents[0].definitions[1].enclosing_symbol = Some("sym::func_a".to_string());
    assert!(!builder.can_build(&cyclic, &sources_for(&cyclic)));
}

#[test]
fn can_build_checks_the_size_function_spans() {
    let mut data = create_semantic_data_simple();
    // Column 1 falls inside the two-byte "é" of the source line.
    data.documents[0].definitions[0].span =
        SourceSpan { start_line: 0, start_column: 1, end_line: 0, end_column: 4 };
    let sources = vec!["éab cd".to_string()];
    let builder = GraphBuilder::new(TiktokenSizeFunction::new(), MockDocScorer::new());
    assert!(!builder.can_build(&data, &sources));
    data.documents[0].definitions[0].span =
        SourceSpan { start_line: 0, start_column: 2, end_line: 0, end_column: 4 };
    assert!(builder.can_build(&data, &sources));
}

#[test]
fn heuristic_score_reads_the_built_signature() {
    // Signature handed to the scorer: `(x: int) -> ["int"]` (Python: has a return value).
    let data = project(vec![DocumentSemantics {
        relative_path: "main.py".into(),
        language: "python".into(),
        definitions: vec![function_def(
            "sym::f",
            "f",
            vec!["Returns the x.".into()],
            vec![ParameterInfo {
                name: "x".into(),
                param_type: Some("int".into()),
                has_default: false,
                is_variadic: false,
            }],
            Some("int".into()),
        )],
        references: vec![],
    }]);
    let graph = build_with(data, MockSizeFunction::new(), HeuristicDocScorer::new());
    let f = graph.get_node_by_symbol("sym::f").unwrap();
    let score = graph.node(f).node_core().doc_score;
    // Return mentioned (0.3) and the parameter covered (0.4); three words add nothing.
    assert_eq!(score.numerator * 10, score.denominator * 7);
}

#[test]
fn test_shared_state_fixture_produces_shared_state_write_edges() {
    let graph = build_with(
        create_semantic_data_with_shared_state(Mutability::Mutable),
        MockSizeFunction::new(),
        MockDocScorer::new(),
    );
    assert_eq!(graph.node_count(), 4);
    let has_shared_state_write = (0..graph.node_count())
        .any(|i| graph.outgoing_edges(i).iter().any(|(_, k)| *k == EdgeKind::SharedStateWrite));
    assert!(has_shared_state_write);
}

#[test]
fn shared_state_edges_run_from_the_reader_to_each_writer_of_a_mutable_variable() {
    let graph = build_with(
        create_semantic_data_with_shared_state(Mutability::Mutable),
        MockSizeFunction::new(),
        MockDocScorer::new(),
    );
    let r = graph.get_node_by_symbol("sym::reader").unwrap();
    let w1 = graph.get_node_by_symbol("sym::writer1").unwrap();
    let w2 = graph.get_node_by_symbol("sym::writer2").unwrap();
    let v = graph.get_node_by_symbol("sym::global_var").unwrap();
    // newest first: the two shared-state writes, then the read
    assert_eq!(
        graph.outgoing_edges(r),
        vec![(w2, EdgeKind::SharedStateWrite), (w1, EdgeKind::SharedStateWrite), (v, EdgeKind::Read)]
    );
    let constant = build_with(
        create_semantic_data_with_shared_state(Mutability::Const),
        MockSizeFunction::new(),
        MockDocScorer::new(),
    );
    let r = constant.get_node_by_symbol("sym::reader").unwrap();
    assert_eq!(constant.outgoing_edges(r), vec![(v, EdgeKind::Read)]);
}

#[test]
fn call_in_edges_run_from_an_underspecified_callee_to_its_callers() {
    // func_a calls func_b; func_b has no return type, so its callers are linked back.
    let graph = build_with(
        project(vec![DocumentSemantics {
            relative_path: "m.py".into(),
            language: "python".into(),
            definitions: vec![
                function_def("sym::a", "a", vec![], vec![], Some("int".into())),
                function_def("sym::b", "b", vec![], vec![], None),
                function_def("sym::c", "c", vec![], vec![], Some("int".into())),
            ],
            references: vec![call_reference("sym::b", "sym::a"), call_reference("sym::c", "sym::a")],
        }]),
        MockSizeFunction::new(),
        MockDocScorer::new(),
    );
    let a = graph.get_node_by_symbol("sym::a").unwrap();
    let b = graph.get_node_by_symbol("sym::b").unwrap();
    let c = graph.get_node_by_symbol("sym::c").unwrap();
    assert_eq!(graph.outgoing_edges(b), vec![(a, EdgeKind::CallIn)]);
    // c's signature is complete: no call-in edge
    assert_eq!(graph.outgoing_edges(c), vec![]);
}
