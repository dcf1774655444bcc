use context_footprint::adapters::policy::academic::AcademicBaseline;
use context_footprint::adapters::policy::strict::StrictPolicy;
use context_footprint::domain::edge::EdgeKind;
use context_footprint::domain::graph::ContextGraph;
use context_footprint::domain::node::{
    DocScore, FunctionNode, Mutability, Node, NodeCore, Parameter, SourceSpan, VariableKind,
    VariableNode, Visibility,
};
use context_footprint::domain::policy::PruningDecision;
use context_footprint::domain::type_registry::{TypeDefAttribute, TypeInfo, TypeKind};

fn make_core(id: u32, name: &str, doc_score: DocScore, is_external: bool) -> NodeCore {
    NodeCore::new(
        id,
        name.to_string(),
        None,
        10,
        SourceSpan {
            start_line: 0,
            start_column: 0,
            end_line: 1,
            end_column: 5,
        },
        doc_score,
        is_external,
        "test.py".to_string(),
    )
}

fn function(core: NodeCore, parameters: Vec<Parameter>, return_types: Vec<String>) -> Node {
    Node::Function(FunctionNode {
        core,
        parameters,
        is_async: false,
        is_generator: false,
        visibility: Visibility::Public,
        return_types,
        is_interface_method: false,
        is_constructor: false,
        is_di_wired: false,
    })
}

fn typed_param(name: &str) -> Parameter {
    Parameter {
        name: name.to_string(),
        param_type: Some("int#".to_string()),
    }
}

fn well_documented_function(doc_score: DocScore) -> Node {
    function(
        make_core(0, "f", doc_score, false),
        vec![typed_param("x"), typed_param("y")],
        vec!["int#".to_string()],
    )
}

fn poorly_documented_function() -> Node {
    function(
        make_core(0, "g", DocScore::new(0, 1), false),
        vec![Parameter {
            name: "x".to_string(),
            param_type: None,
        }],
        Vec::new(),
    )
}

fn variable_node() -> Node {
    Node::Variable(VariableNode {
        core: make_core(0, "v", DocScore::new(1, 1), false),
        var_type: None,
        mutability: Mutability::Immutable,
        variable_kind: VariableKind::Global,
    })
}

fn external_node() -> Node {
    function(make_core(0, "ext", DocScore::new(0, 1), true), Vec::new(), Vec::new())
}

fn graph_with_abstract_service_port() -> ContextGraph {
    let mut graph = ContextGraph::new();
    graph.type_registry.register(
        "ServicePort#".to_string(),
        TypeInfo {
            definition: TypeDefAttribute {
                type_kind: TypeKind::Interface,
                is_abstract: true,
                type_param_count: 0,
            },
            context_size: 100,
            doc_score: DocScore::new(9, 10),
        },
    );
    graph
}

fn factory(doc_score: DocScore) -> Node {
    function(
        make_core(0, "get_service", doc_score, false),
        Vec::new(),
        vec!["ServicePort#".to_string()],
    )
}

// ---------------------------------------------------------------------------
// AcademicBaseline
// ---------------------------------------------------------------------------

#[test]
fn academic_test_external_node_is_boundary() {
    let policy = AcademicBaseline::default();
    let graph = ContextGraph::new();
    let target = external_node();
    let source = well_documented_function(DocScore::new(4, 5));
    let d = policy.evaluate(&source, &target, &EdgeKind::Call, &graph);
    assert!(matches!(d, PruningDecision::Boundary));
}

#[test]
fn test_well_documented_function_is_boundary() {
    let policy = AcademicBaseline::default();
    let graph = ContextGraph::new();
    let target = well_documented_function(DocScore::new(4, 5));
    let source = poorly_documented_function();
    let d = policy.evaluate(&source, &target, &EdgeKind::Call, &graph);
    assert!(matches!(d, PruningDecision::Boundary));
}

#[test]
fn test_poorly_documented_function_is_transparent() {
    let policy = AcademicBaseline::default();
    let graph = ContextGraph::new();
    let target = poorly_documented_function();
    let source = well_documented_function(DocScore::new(4, 5));
    let d = policy.evaluate(&source, &target, &EdgeKind::Call, &graph);
    assert!(matches!(d, PruningDecision::Transparent));
}

#[test]
fn academic_test_variable_always_transparent() {
    let policy = AcademicBaseline::default();
    let graph = ContextGraph::new();
    let target = variable_node();
    let source = well_documented_function(DocScore::new(4, 5));
    let d = policy.evaluate(&source, &target, &EdgeKind::Read, &graph);
    assert!(matches!(d, PruningDecision::Transparent));
}

#[test]
fn academic_test_shared_state_write_always_transparent() {
    let policy = AcademicBaseline::default();
    let graph = ContextGraph::new();
    let source = well_documented_function(DocScore::new(4, 5));
    let target = well_documented_function(DocScore::new(4, 5));
    let d = policy.evaluate(&source, &target, &EdgeKind::SharedStateWrite, &graph);
    assert!(matches!(d, PruningDecision::Transparent));
}

#[test]
fn test_call_in_depends_on_signature_completeness() {
    let policy = AcademicBaseline::default();
    let graph = ContextGraph::new();
    let well = well_documented_function(DocScore::new(4, 5));
    let poor = poorly_documented_function();
    let d_well = policy.evaluate(&well, &poor, &EdgeKind::CallIn, &graph);
    let d_poor = policy.evaluate(&poor, &well, &EdgeKind::CallIn, &graph);
    assert!(matches!(d_well, PruningDecision::Boundary));
    assert!(matches!(d_poor, PruningDecision::Transparent));
}

#[test]
fn test_doc_threshold_below_returns_transparent() {
    let policy = AcademicBaseline::new(DocScore::new(9, 10));
    let mut target = well_documented_function(DocScore::new(4, 5));
    target.core_mut().doc_score = DocScore::new(3, 5);
    let graph = ContextGraph::new();
    let source = poorly_documented_function();
    let d = policy.evaluate(&source, &target, &EdgeKind::Call, &graph);
    assert!(matches!(d, PruningDecision::Transparent));
}

#[test]
fn test_abstract_factory_is_boundary() {
    let policy = AcademicBaseline::default();
    let graph = graph_with_abstract_service_port();
    let caller = poorly_documented_function();
    let d = policy.evaluate(&caller, &factory(DocScore::new(4, 5)), &EdgeKind::Call, &graph);
    assert!(matches!(d, PruningDecision::Boundary));
}

#[test]
fn test_poorly_documented_factory_returning_abstract_becomes_boundary() {
    let policy = AcademicBaseline::default();
    let graph = graph_with_abstract_service_port();
    let caller = well_documented_function(DocScore::new(4, 5));
    let d = policy.evaluate(&caller, &factory(DocScore::new(3, 10)), &EdgeKind::Call, &graph);
    assert!(matches!(d, PruningDecision::Boundary));
}

#[test]
fn academic_factory_of_a_poorly_documented_abstract_type_is_transparent() {
    let policy = AcademicBaseline::default();
    let mut graph = ContextGraph::new();
    graph.type_registry.register(
        "ServicePort#".to_string(),
        TypeInfo {
            definition: TypeDefAttribute {
                type_kind: TypeKind::Interface,
                is_abstract: true,
                type_param_count: 0,
            },
            context_size: 100,
            doc_score: DocScore::new(1, 5),
        },
    );
    let caller = well_documented_function(DocScore::new(4, 5));
    let d = policy.evaluate(&caller, &factory(DocScore::new(3, 10)), &EdgeKind::Call, &graph);
    assert!(matches!(d, PruningDecision::Transparent));
}

#[test]
fn academic_default_threshold_is_one_half() {
    assert_eq!(AcademicBaseline::default().doc_threshold(), DocScore::new(1, 2));
    assert_eq!(
        AcademicBaseline::new(DocScore::new(9, 10)).doc_threshold(),
        DocScore::new(9, 10)
    );
}

// ---------------------------------------------------------------------------
// StrictPolicy
// ---------------------------------------------------------------------------

#[test]
fn strict_test_external_node_is_boundary() {
    let policy = StrictPolicy::default();
    let graph = ContextGraph::new();
    let target = external_node();
    let source = well_documented_function(DocScore::new(9, 10));
    let d = policy.evaluate(&source, &target, &EdgeKind::Call, &graph);
    assert!(matches!(d, PruningDecision::Boundary));
}

#[test]
fn test_function_always_transparent() {
    let policy = StrictPolicy::default();
    let graph = ContextGraph::new();
    let target = well_documented_function(DocScore::new(9, 10));
    let source = poorly_documented_function();
    let d = policy.evaluate(&source, &target, &EdgeKind::Call, &graph);
    assert!(matches!(d, PruningDecision::Transparent));
}

#[test]
fn strict_test_variable_always_transparent() {
    let policy = StrictPolicy::default();
    let graph = ContextGraph::new();
    let target = variable_node();
    let source = well_documented_function(DocScore::new(9, 10));
    let d = policy.evaluate(&source, &target, &EdgeKind::Read, &graph);
    assert!(matches!(d, PruningDecision::Transparent));
}

#[test]
fn strict_test_shared_state_write_always_transparent() {
    let policy = StrictPolicy::default();
    let graph = ContextGraph::new();
    let source = well_documented_function(DocScore::new(9, 10));
    let target = well_documented_function(DocScore::new(9, 10));
    let d = policy.evaluate(&source, &target, &EdgeKind::SharedStateWrite, &graph);
    assert!(matches!(d, PruningDecision::Transparent));
}

#[test]
fn test_call_in_with_complete_signature_is_boundary() {
    let policy = StrictPolicy::default();
    let graph = ContextGraph::new();
    let callee = well_documented_function(DocScore::new(9, 10));
    let caller = poorly_documented_function();
    let d = policy.evaluate(&callee, &caller, &EdgeKind::CallIn, &graph);
    assert!(matches!(d, PruningDecision::Boundary));
}

#[test]
fn test_call_in_with_incomplete_signature_is_transparent() {
    let policy = StrictPolicy::default();
    let graph = ContextGraph::new();
    let callee = poorly_documented_function();
    let caller = well_documented_function(DocScore::new(9, 10));
    let d = policy.evaluate(&callee, &caller, &EdgeKind::CallIn, &graph);
    assert!(matches!(d, PruningDecision::Transparent));
}

#[test]
fn test_doc_threshold_configurable() {
    assert_eq!(StrictPolicy::default().doc_threshold(), DocScore::new(4, 5));
    assert_eq!(
        StrictPolicy::new(DocScore::new(1, 2)).doc_threshold(),
        DocScore::new(1, 2)
    );
}

#[test]
fn strict_call_in_below_the_higher_threshold_is_transparent() {
    let policy = StrictPolicy::default();
    let graph = ContextGraph::new();
    let callee = well_documented_function(DocScore::new(7, 10));
    let caller = poorly_documented_function();
    let d = policy.evaluate(&callee, &caller, &EdgeKind::CallIn, &graph);
    assert!(matches!(d, PruningDecision::Transparent));
}
