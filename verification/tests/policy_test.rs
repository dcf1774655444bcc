use context_footprint::domain::edge::EdgeKind;
use context_footprint::domain::graph::ContextGraph;
use context_footprint::domain::node::{
    DocScore, FunctionNode, Mutability, Node, NodeCore, Parameter, SourceSpan, VariableKind,
    VariableNode, Visibility,
};
use context_footprint::domain::policy::{evaluate, PruningDecision, PruningParams};

fn test_node(doc_score: DocScore) -> Node {
    let core = NodeCore::new(
        0,
        "f".to_string(),
        None,
        10,
        SourceSpan {
            start_line: 0,
            start_column: 0,
            end_line: 1,
            end_column: 5,
        },
        doc_score,
        false,
        "test.py".to_string(),
    );
    Node::Function(FunctionNode {
        core,
        parameters: vec![Parameter {
            name: "x".to_string(),
            param_type: Some("int#".to_string()),
        }],
        is_async: false,
        is_generator: false,
        visibility: Visibility::Public,
        return_types: vec!["int#".to_string()],
        is_interface_method: false,
        is_constructor: false,
        is_di_wired: false,
    })
}

#[test]
fn test_default_pruning_params() {
    let p = PruningParams::default();
    assert_eq!(p.doc_threshold, DocScore::new(1, 2));
    assert!(p.treat_typed_documented_function_as_boundary);
}

#[test]
fn test_academic_vs_strict() {
    let graph = ContextGraph::new();
    let target = test_node(DocScore::new(4, 5));
    let source = test_node(DocScore::new(0, 1));
    let edge = EdgeKind::Call;
    let academic = PruningParams::default();
    let strict = PruningParams {
        doc_threshold: DocScore::new(1, 2),
        treat_typed_documented_function_as_boundary: false,
    };
    assert!(matches!(
        evaluate(&academic, &source, &target, &edge, &graph),
        PruningDecision::Boundary
    ));
    assert!(matches!(
        evaluate(&strict, &source, &target, &edge, &graph),
        PruningDecision::Transparent
    ));
}

// Helper to create variable nodes for testing
fn test_variable_node(mutability: Mutability) -> Node {
    let core = NodeCore::new(
        1,
        "test_var".to_string(),
        None,
        5,
        SourceSpan {
            start_line: 0,
            start_column: 0,
            end_line: 1,
            end_column: 10,
        },
        DocScore::new(1, 2),
        false,
        "test.py".to_string(),
    );
    Node::Variable(VariableNode {
        core,
        var_type: Some("int#".to_string()),
        mutability,
        variable_kind: VariableKind::Global,
    })
}

#[test]
fn test_variable_immutable_is_boundary_on_read() {
    let graph = ContextGraph::new();
    let source = test_node(DocScore::new(0, 1));
    let target = test_variable_node(Mutability::Immutable);
    let edge = EdgeKind::Read;
    let params = PruningParams::default();

    // Immutable variable should be a boundary on Read
    assert!(matches!(
        evaluate(&params, &source, &target, &edge, &graph),
        PruningDecision::Boundary
    ));
}

#[test]
fn test_variable_const_is_boundary_on_read() {
    let graph = ContextGraph::new();
    let source = test_node(DocScore::new(0, 1));
    let target = test_variable_node(Mutability::Const);
    let edge = EdgeKind::Read;
    let params = PruningParams::default();

    // Const variable should be a boundary on Read
    assert!(matches!(
        evaluate(&params, &source, &target, &edge, &graph),
        PruningDecision::Boundary
    ));
}

#[test]
fn test_variable_mutable_is_transparent_on_read() {
    let graph = ContextGraph::new();
    let source = test_node(DocScore::new(0, 1));
    let target = test_variable_node(Mutability::Mutable);
    let edge = EdgeKind::Read;
    let params = PruningParams::default();

    // Mutable variable should be transparent on Read (triggers expansion)
    assert!(matches!(
        evaluate(&params, &source, &target, &edge, &graph),
        PruningDecision::Transparent
    ));
}

#[test]
fn test_variable_any_mutability_is_transparent_on_write() {
    let graph = ContextGraph::new();
    let source = test_node(DocScore::new(0, 1));
    let params = PruningParams::default();

    // All variable types should be transparent on Write
    for mutability in [Mutability::Const, Mutability::Immutable, Mutability::Mutable] {
        let target = test_variable_node(mutability);
        let edge = EdgeKind::Write;
        assert!(
            matches!(
                evaluate(&params, &source, &target, &edge, &graph),
                PruningDecision::Transparent
            ),
            "Variable with {:?} should be transparent on Write",
            mutability
        );
    }
}

#[test]
fn external_target_is_boundary_in_both_modes() {
    let graph = ContextGraph::new();
    let source = test_node(DocScore::new(0, 1));
    let mut target = test_variable_node(Mutability::Mutable);
    match &mut target {
        Node::Variable(v) => v.core.is_external = true,
        Node::Function(_) => unreachable!(),
    }
    for params in [PruningParams::academic(DocScore::new(1, 2)), PruningParams::strict(DocScore::new(1, 2))] {
        assert_eq!(evaluate(&params, &source, &target, &EdgeKind::Write, &graph), PruningDecision::Boundary);
    }
}

#[test]
fn doc_score_comparison_is_exact() {
    assert!(DocScore::new(1, 2).at_least(&DocScore::new(2, 4)));
    assert!(DocScore::new(3, 5).at_least(&DocScore::new(1, 2)));
    assert!(!DocScore::new(49, 100).at_least(&DocScore::new(1, 2)));
    assert!(DocScore::new(u128::MAX, u128::MAX).at_least(&DocScore::new(1, 1)));
    assert!(!DocScore::new(u128::MAX - 1, u128::MAX).at_least(&DocScore::new(1, 1)));
}
