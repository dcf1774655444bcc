use context_footprint::domain::edge::EdgeKind;
use context_footprint::domain::graph::ContextGraph;
use context_footprint::domain::node::{
    DocScore, FunctionNode, Mutability, Node, NodeCore, Parameter, SourceSpan, VariableKind,
    VariableNode, Visibility,
};
use context_footprint::domain::policy::PruningParams;
use context_footprint::domain::solver::CfSolver;
use std::sync::Arc;

fn half() -> DocScore {
    DocScore::new(1, 2)
}

fn test_node(id: u32, name: &str, context_size: u32) -> Node {
    let span = SourceSpan {
        start_line: 0,
        start_column: 0,
        end_line: 1,
        end_column: 10,
    };
    let core = NodeCore::new(
        id,
        name.to_string(),
        None,
        context_size,
        span,
        DocScore::new(1, 2),
        false,
        "test.py".to_string(),
    );
    Node::Function(FunctionNode {
        core,
        parameters: Vec::new(),
        is_async: false,
        is_generator: false,
        visibility: Visibility::Public,
        return_types: vec![],
        is_interface_method: false,
        is_constructor: false,
        is_di_wired: false,
    })
}

fn test_var_node(id: u32, name: &str, mutability: Mutability) -> Node {
    let span = SourceSpan {
        start_line: 0,
        start_column: 0,
        end_line: 1,
        end_column: 10,
    };
    let core = NodeCore::new(
        id,
        name.to_string(),
        None,
        1,
        span,
        DocScore::new(1, 2),
        false,
        "test.py".to_string(),
    );
    Node::Variable(VariableNode {
        core,
        var_type: None,
        mutability,
        variable_kind: VariableKind::Global,
    })
}

/// Node that qualifies as boundary under academic(0.5): sig complete + doc_score >= 0.5.
fn test_node_boundary(id: u32, name: &str, context_size: u32) -> Node {
    let span = SourceSpan {
        start_line: 0,
        start_column: 0,
        end_line: 1,
        end_column: 10,
    };
    let core = NodeCore::new(
        id,
        name.to_string(),
        None,
        context_size,
        span,
        DocScore::new(4, 5),
        false,
        "test.py".to_string(),
    );
    Node::Function(FunctionNode {
        core,
        parameters: vec![Parameter {
            name: "x".to_string(),
            param_type: Some("int#".to_string()),
        }],
        is_async: false,
        is_generator: false,
        visibility: Visibility::Public,
        return_types: vec!["int#".to_string()],
        is_interface_method: false,
        is_constructor: false,
        is_di_wired: false,
    })
}

#[test]
fn test_single_node_cf() {
    let mut graph = ContextGraph::new();
    let idx = graph.add_node("sym::a".into(), test_node(0, "a", 100));
    let solver = CfSolver::new(Arc::new(graph), PruningParams::strict(half()));
    let result = solver.compute_cf(&[idx], None);
    assert_eq!(result.reachable_set.len(), 1);
    assert!(result.reachable_set.contains(&0));
    assert_eq!(result.total_context_size, 100);
}

#[test]
fn test_linear_dependency_chain() {
    let mut graph = ContextGraph::new();
    let a = graph.add_node("sym::a".into(), test_node(0, "a", 10));
    let b = graph.add_node("sym::b".into(), test_node(1, "b", 20));
    let c = graph.add_node("sym::c".into(), test_node(2, "c", 30));
    graph.add_edge(a, b, EdgeKind::Call);
    graph.add_edge(b, c, EdgeKind::Call);
    let solver = CfSolver::new(Arc::new(graph), PruningParams::strict(half()));
    let result = solver.compute_cf(&[a], None);
    assert_eq!(result.reachable_set.len(), 3);
    assert_eq!(result.total_context_size, 10 + 20 + 30);
}

#[test]
fn test_diamond_dependency() {
    let mut graph = ContextGraph::new();
    let a = graph.add_node("sym::a".into(), test_node(0, "a", 10));
    let b = graph.add_node("sym::b".into(), test_node(1, "b", 20));
    let c = graph.add_node("sym::c".into(), test_node(2, "c", 30));
    let d = graph.add_node("sym::d".into(), test_node(3, "d", 40));
    graph.add_edge(a, b, EdgeKind::Call);
    graph.add_edge(a, c, EdgeKind::Call);
    graph.add_edge(b, d, EdgeKind::Call);
    graph.add_edge(c, d, EdgeKind::Call);
    let solver = CfSolver::new(Arc::new(graph), PruningParams::strict(half()));
    let result = solver.compute_cf(&[a], None);
    assert_eq!(result.reachable_set.len(), 4);
    assert_eq!(result.total_context_size, 10 + 20 + 30 + 40);
}

#[test]
fn test_cycle_detection() {
    let mut graph = ContextGraph::new();
    let a = graph.add_node("sym::a".into(), test_node(0, "a", 10));
    let b = graph.add_node("sym::b".into(), test_node(1, "b", 20));
    let c = graph.add_node("sym::c".into(), test_node(2, "c", 30));
    graph.add_edge(a, b, EdgeKind::Call);
    graph.add_edge(b, c, EdgeKind::Call);
    graph.add_edge(c, a, EdgeKind::Call);
    let solver = CfSolver::new(Arc::new(graph), PruningParams::strict(half()));
    let result = solver.compute_cf(&[a], None);
    assert_eq!(result.reachable_set.len(), 3);
    assert_eq!(result.total_context_size, 10 + 20 + 30);
}

#[test]
fn test_boundary_stops_traversal() {
    let mut graph = ContextGraph::new();
    let a = graph.add_node("sym::a".into(), test_node(0, "a", 10));
    let b = graph.add_node("sym::b".into(), test_node_boundary(1, "b", 20));
    let c = graph.add_node("sym::c".into(), test_node(2, "c", 30));
    graph.add_edge(a, b, EdgeKind::Call);
    graph.add_edge(b, c, EdgeKind::Call);
    let solver = CfSolver::new(Arc::new(graph), PruningParams::academic(half()));
    let result = solver.compute_cf(&[a], None);
    assert_eq!(result.reachable_set.len(), 2); // a and b; c is not traversed
    assert_eq!(result.total_context_size, 10 + 20); // a and b both count
}

#[test]
fn test_transparent_node_continues() {
    let mut graph = ContextGraph::new();
    let a = graph.add_node("sym::a".into(), test_node(0, "a", 10));
    let b = graph.add_node("sym::b".into(), test_node(1, "b", 20));
    let c = graph.add_node("sym::c".into(), test_node(2, "c", 30));
    graph.add_edge(a, b, EdgeKind::Call);
    graph.add_edge(b, c, EdgeKind::Call);
    let solver = CfSolver::new(Arc::new(graph), PruningParams::strict(half()));
    let result = solver.compute_cf(&[a], None);
    assert_eq!(result.reachable_set.len(), 3);
    assert_eq!(result.total_context_size, 60);
}

#[test]
fn test_shared_state_write_expansion() {
    // Reader R reads mutable var V; W1 and W2 write to V. Reverse exploration from V follows
    // incoming Write to W1, W2.
    let mut graph = ContextGraph::new();
    let r = graph.add_node("sym::r".into(), test_node(0, "r", 10));
    let v_span = SourceSpan {
        start_line: 0,
        start_column: 0,
        end_line: 1,
        end_column: 5,
    };
    let v_core = NodeCore::new(
        1,
        "v".to_string(),
        None,
        1,
        v_span,
        DocScore::new(0, 1),
        false,
        "test.py".to_string(),
    );
    let var = Node::Variable(VariableNode {
        core: v_core,
        var_type: Some("int#".to_string()),
        mutability: Mutability::Mutable,
        variable_kind: VariableKind::Global,
    });
    let var_idx = graph.add_node("sym::v".into(), var);
    let w1 = graph.add_node("sym::w1".into(), test_node(2, "w1", 20));
    let w2 = graph.add_node("sym::w2".into(), test_node(3, "w2", 30));
    graph.add_edge(r, var_idx, EdgeKind::Read);
    graph.add_edge(w1, var_idx, EdgeKind::Write);
    graph.add_edge(w2, var_idx, EdgeKind::Write);
    let solver = CfSolver::new(Arc::new(graph), PruningParams::strict(half()));
    let result = solver.compute_cf(&[r], None);
    assert_eq!(result.reachable_set.len(), 4); // r, v, w1, w2
    assert_eq!(result.total_context_size, 10 + 1 + 20 + 30);
}

#[test]
fn test_call_in_expansion() {
    // Caller --Call--> Callee. Start at Callee; call-in exploration follows incoming Call to Caller.
    let mut graph = ContextGraph::new();
    let callee = graph.add_node("sym::callee".into(), test_node(0, "callee", 10));
    let caller = graph.add_node("sym::caller".into(), test_node(1, "caller", 25));
    let var = graph.add_node("sym::var".into(), test_var_node(2, "var", Mutability::Mutable));
    graph.add_edge(caller, callee, EdgeKind::Call);
    // Make callee impure so call-in happens
    graph.add_edge(callee, var, EdgeKind::Write);

    let solver = CfSolver::new(Arc::new(graph), PruningParams::strict(half()));
    let result = solver.compute_cf(&[callee], None);
    assert_eq!(result.reachable_set.len(), 3); // callee, var (forward), caller (call-in)
    assert_eq!(result.total_context_size, 10 + 25 + 1);
}

#[test]
fn test_different_policies_different_results() {
    let mut graph = ContextGraph::new();
    let a = graph.add_node("sym::a".into(), test_node(0, "a", 10));
    let b = graph.add_node("sym::b".into(), test_node_boundary(1, "b", 20));
    let c = graph.add_node("sym::c".into(), test_node(2, "c", 30));
    graph.add_edge(a, b, EdgeKind::Call);
    graph.add_edge(b, c, EdgeKind::Call);
    let graph_arc = Arc::new(graph);
    let solver_trans = CfSolver::new(Arc::clone(&graph_arc), PruningParams::strict(half()));
    let solver_bound = CfSolver::new(graph_arc, PruningParams::academic(half()));
    let res_trans = solver_trans.compute_cf(&[a], None);
    let res_bound = solver_bound.compute_cf(&[a], None);
    assert_eq!(res_trans.total_context_size, 60);
    assert_eq!(res_bound.total_context_size, 30); // a and b, c not traversed
    assert_eq!(res_trans.reachable_set.len(), 3);
    assert_eq!(res_bound.reachable_set.len(), 2);
}

#[test]
fn test_disconnected_component_not_reached() {
    let mut graph = ContextGraph::new();
    let a = graph.add_node("sym::a".into(), test_node(0, "a", 10));
    let _b = graph.add_node("sym::b".into(), test_node(1, "b", 20));
    graph.add_edge(a, a, EdgeKind::Call); // self-loop only, b is disconnected
    let solver = CfSolver::new(Arc::new(graph), PruningParams::strict(half()));
    let result = solver.compute_cf(&[a], None);
    assert_eq!(result.reachable_set.len(), 1);
    assert_eq!(result.total_context_size, 10);
}

#[test]
fn test_multiple_edges_from_same_source() {
    let mut graph = ContextGraph::new();
    let a = graph.add_node("sym::a".into(), test_node(0, "a", 10));
    let b = graph.add_node("sym::b".into(), test_node(1, "b", 20));
    let c = graph.add_node("sym::c".into(), test_node(2, "c", 30));
    graph.add_edge(a, b, EdgeKind::Call);
    graph.add_edge(a, c, EdgeKind::Call);
    let solver = CfSolver::new(Arc::new(graph), PruningParams::strict(half()));
    let result = solver.compute_cf(&[a], None);
    assert_eq!(result.reachable_set.len(), 3);
    assert_eq!(result.total_context_size, 60);
}

#[test]
fn test_start_at_middle_of_chain() {
    // A -> B -> C. Start at B. B has incomplete spec so call-in exploration reaches A.
    let mut graph = ContextGraph::new();
    let a = graph.add_node("sym::a".into(), test_node(0, "a", 10));
    let b = graph.add_node("sym::b".into(), test_node(1, "b", 250));
    let c = graph.add_node("sym::c".into(), test_node(2, "c", 30));
    let var = graph.add_node("sym::var".into(), test_var_node(3, "var", Mutability::Mutable));
    graph.add_edge(a, b, EdgeKind::Call);
    graph.add_edge(b, c, EdgeKind::Call);
    // Make b impure so call-in happens
    graph.add_edge(b, var, EdgeKind::Write);

    let solver = CfSolver::new(Arc::new(graph), PruningParams::strict(half()));
    let result = solver.compute_cf(&[b], None);
    assert_eq!(result.reachable_set.len(), 4); // B, then C and var (forward), A (call-in)
    assert_eq!(result.total_context_size, 10 + 250 + 30 + 1);
}

#[test]
fn test_boundary_node_still_in_reachable_set() {
    let mut graph = ContextGraph::new();
    let a = graph.add_node("sym::a".into(), test_node(0, "a", 10));
    let b = graph.add_node("sym::b".into(), test_node_boundary(1, "b", 99));
    graph.add_edge(a, b, EdgeKind::Call);
    let solver = CfSolver::new(Arc::new(graph), PruningParams::academic(half()));
    let result = solver.compute_cf(&[a], None);
    assert!(result.reachable_set.contains(&0));
    assert!(result.reachable_set.contains(&1));
    assert_eq!(result.total_context_size, 10 + 99);
}

#[test]
fn test_multi_node_union_cf() {
    let mut graph = ContextGraph::new();
    // A -> C, B -> C, C -> D. E is independent.
    let a = graph.add_node("sym::a".into(), test_node(0, "a", 10));
    let b = graph.add_node("sym::b".into(), test_node(1, "b", 20));
    let c = graph.add_node("sym::c".into(), test_node(2, "c", 30));
    let d = graph.add_node("sym::d".into(), test_node(3, "d", 40));
    let _e = graph.add_node("sym::e".into(), test_node(4, "e", 50));

    graph.add_edge(a, c, EdgeKind::Call);
    graph.add_edge(b, c, EdgeKind::Call);
    graph.add_edge(c, d, EdgeKind::Call);

    let solver = CfSolver::new(Arc::new(graph), PruningParams::strict(half()));

    // CF({A, B}) = {A, B, C, D} = 10 + 20 + 30 + 40 = 100
    let result = solver.compute_cf(&[a, b], None);

    assert_eq!(result.reachable_set.len(), 4);
    assert!(result.reachable_set.contains(&0)); // A
    assert!(result.reachable_set.contains(&1)); // B
    assert!(result.reachable_set.contains(&2)); // C
    assert!(result.reachable_set.contains(&3)); // D
    assert!(!result.reachable_set.contains(&4)); // E (not reachable)
    assert_eq!(result.total_context_size, 100);

    // Verify layers
    assert_eq!(result.reachable_nodes_by_layer[0].len(), 2); // {A, B}
    assert!(result.reachable_nodes_by_layer[0].contains(&0));
    assert!(result.reachable_nodes_by_layer[0].contains(&1));
    assert_eq!(result.reachable_nodes_by_layer[1].len(), 1); // {C}
    assert_eq!(result.reachable_nodes_by_layer[1][0], 2);
    assert_eq!(result.reachable_nodes_by_layer[2].len(), 1); // {D}
    assert_eq!(result.reachable_nodes_by_layer[2][0], 3);
}

#[test]
fn test_cached_total_matches_compute_cf_for_each_node() {
    let mut graph = ContextGraph::new();
    // A -> B -> C, and A -> D (diamond-ish), plus a cycle E <-> F.
    let a = graph.add_node("sym::a".into(), test_node(0, "a", 10));
    let b = graph.add_node("sym::b".into(), test_node(1, "b", 20));
    let c = graph.add_node("sym::c".into(), test_node(2, "c", 30));
    let d = graph.add_node("sym::d".into(), test_node(3, "d", 40));
    let e = graph.add_node("sym::e".into(), test_node(4, "e", 5));
    let f = graph.add_node("sym::f".into(), test_node(5, "f", 6));

    graph.add_edge(a, b, EdgeKind::Call);
    graph.add_edge(b, c, EdgeKind::Call);
    graph.add_edge(a, d, EdgeKind::Call);
    graph.add_edge(c, d, EdgeKind::Call);
    graph.add_edge(e, f, EdgeKind::Call);
    graph.add_edge(f, e, EdgeKind::Call);

    let graph_arc = Arc::new(graph);
    let solver = CfSolver::new(Arc::clone(&graph_arc), PruningParams::strict(half()));

    for idx in 0..graph_arc.node_count() {
        let expected = solver.compute_cf(&[idx], None).total_context_size;
        let got = solver.compute_cf_total(idx);
        assert_eq!(got, expected);
    }
}

#[test]
fn test_cached_total_respects_boundary_semantics() {
    let mut graph = ContextGraph::new();
    // A -> B -> C; B is boundary (sig complete + doc), so from A only A and B count.
    let a = graph.add_node("sym::a".into(), test_node(0, "a", 10));
    let b = graph.add_node("sym::b".into(), test_node_boundary(1, "b", 20));
    let c = graph.add_node("sym::c".into(), test_node(2, "c", 30));
    graph.add_edge(a, b, EdgeKind::Call);
    graph.add_edge(b, c, EdgeKind::Call);

    let solver = CfSolver::new(Arc::new(graph), PruningParams::academic(half()));

    let expected = solver.compute_cf(&[a], None).total_context_size;
    let got = solver.compute_cf_total(a);
    assert_eq!(got, expected);
    assert_eq!(got, 10 + 20);
}

#[test]
fn token_limit_stops_the_traversal() {
    let mut graph = ContextGraph::new();
    let a = graph.add_node("sym::a".into(), test_node(0, "a", 10));
    let b = graph.add_node("sym::b".into(), test_node(1, "b", 20));
    let c = graph.add_node("sym::c".into(), test_node(2, "c", 30));
    graph.add_edge(a, b, EdgeKind::Call);
    graph.add_edge(b, c, EdgeKind::Call);
    let solver = CfSolver::new(Arc::new(graph), PruningParams::strict(half()));
    // The limit is reached once a and b are counted
    let result = solver.compute_cf(&[a], Some(25));
    assert_eq!(result.reachable_nodes_ordered, vec![0, 1]);
    assert_eq!(result.total_context_size, 30);
    // The first start node is always counted
    let result = solver.compute_cf(&[c], Some(1));
    assert_eq!(result.reachable_nodes_ordered, vec![2]);
    assert_eq!(result.traversal_steps.len(), 1);
}

#[test]
fn cached_total_agrees_when_callers_of_explored_functions_are_boundaries() {
    // a explores its callers; its only caller c is a boundary, as is b, so b's callee d
    // stays out whichever order the nodes are met in.
    let mut graph = ContextGraph::new();
    let a = graph.add_node("sym::a".into(), test_node(0, "a", 10));
    let b = graph.add_node("sym::b".into(), test_node_boundary(1, "b", 20));
    let c = graph.add_node("sym::c".into(), test_node_boundary(2, "c", 30));
    let d = graph.add_node("sym::d".into(), test_node(3, "d", 40));
    graph.add_edge(a, b, EdgeKind::Call);
    graph.add_edge(a, c, EdgeKind::Call);
    graph.add_edge(b, d, EdgeKind::Call);
    graph.add_edge(c, a, EdgeKind::Call);
    let solver = CfSolver::new(Arc::new(graph), PruningParams::academic(half()));
    let full = solver.compute_cf(&[a], None);
    assert_eq!(full.total_context_size, 10 + 20 + 30);
    assert_eq!(solver.compute_cf_total(a), full.total_context_size);
}

#[test]
fn cached_total_matches_when_a_write_could_decide_the_order() {
    // d is reached by b's read before c's write (symbol order), so its writer w is explored
    // in both computations.
    let mut graph = ContextGraph::new();
    let a = graph.add_node("sym::a".into(), test_node(0, "a", 1));
    let b = graph.add_node("sym::b".into(), test_node(1, "b", 2));
    let c = graph.add_node("sym::c".into(), test_node(2, "c", 4));
    let d = graph.add_node("sym::d".into(), test_var_node(3, "d", Mutability::Mutable));
    let w = graph.add_node("sym::w".into(), test_node(4, "w", 16));
    graph.add_edge(a, b, EdgeKind::Call);
    graph.add_edge(a, c, EdgeKind::Call);
    graph.add_edge(b, d, EdgeKind::Read);
    graph.add_edge(c, d, EdgeKind::Write);
    graph.add_edge(w, d, EdgeKind::Write);
    let solver = CfSolver::new(Arc::new(graph), PruningParams::strict(half()));
    assert_eq!(solver.compute_cf(&[a], None).total_context_size, 1 + 2 + 4 + 1 + 16);
    assert_eq!(solver.compute_cf_total(a), 1 + 2 + 4 + 1 + 16);
}

#[test]
fn checked_cf_reports_a_total_past_u32() {
    let mut graph = ContextGraph::new();
    let a = graph.add_node("sym::a".into(), test_node(0, "a", u32::MAX));
    let b = graph.add_node("sym::b".into(), test_node(1, "b", 1));
    let c = graph.add_node("sym::c".into(), test_node(2, "c", u32::MAX));
    graph.add_edge(a, b, EdgeKind::Call);
    let solver = CfSolver::new(Arc::new(graph), PruningParams::strict(half()));
    assert!(solver.compute_cf_checked(&[a], None).is_none());
    assert_eq!(solver.compute_cf_total(a), u32::MAX);
    // c alone fits, although all sizes together do not
    let r = solver.compute_cf_checked(&[c], None).unwrap();
    assert_eq!(r.total_context_size, u32::MAX);
}

#[test]
fn a_limit_above_the_total_changes_nothing() {
    let mut graph = ContextGraph::new();
    let a = graph.add_node("sym::a".into(), test_node(0, "a", 10));
    let b = graph.add_node("sym::b".into(), test_node(1, "b", 20));
    let c = graph.add_node("sym::c".into(), test_node(2, "c", 30));
    graph.add_edge(a, b, EdgeKind::Call);
    graph.add_edge(a, c, EdgeKind::Call);
    let solver = CfSolver::new(Arc::new(graph), PruningParams::strict(half()));
    let free = solver.compute_cf(&[a], None);
    let limited = solver.compute_cf(&[a], Some(61));
    assert_eq!(free.total_context_size, 60);
    assert_eq!(limited.total_context_size, free.total_context_size);
    assert_eq!(limited.reachable_nodes_ordered, free.reachable_nodes_ordered);
    assert_eq!(limited.reachable_nodes_by_layer, free.reachable_nodes_by_layer);
    assert_eq!(limited.traversal_steps, free.traversal_steps);
    // the layers hold exactly the ordered nodes
    let mut flat: Vec<u32> = free.reachable_nodes_by_layer.concat();
    let mut ordered = free.reachable_nodes_ordered.clone();
    flat.sort();
    ordered.sort();
    assert_eq!(flat, ordered);
}
