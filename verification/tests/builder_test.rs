use context_footprint::adapters::doc_scorer::simple::SimpleDocScorer;
use context_footprint::adapters::size_function::tiktoken::TiktokenSizeFunction;
use context_footprint::domain::builder::{
    convert_visibility, create_type_info, extract_signature_span, is_enclosed_by_abstract_type,
    GraphBuilder,
};
use context_footprint::domain::edge::EdgeKind;
use context_footprint::domain::node::{DocScore, Node, Visibility as NodeVisibility};
use context_footprint::domain::semantic::{
    DocumentSemantics, FunctionDetails, ReferenceRole, SemanticData, SourceLocation,
    SourceSpan as SemanticSpan, SymbolDefinition, SymbolDetails, SymbolKind, SymbolReference,
    TypeDetails, TypeKind as SemanticTypeKind, Visibility,
};
use context_footprint::domain::type_registry::TypeKind;

fn test_function_def(symbol_id: &str) -> SymbolDefinition {
    SymbolDefinition {
        symbol_id: symbol_id.to_string(),
        kind: SymbolKind::Function,
        name: "test_func".to_string(),
        display_name: "test_func".to_string(),
        location: SourceLocation {
            file_path: "test.py".to_string(),
            line: 0,
            column: 0,
        },
        span: SemanticSpan {
            start_line: 0,
            start_column: 0,
            end_line: 10,
            end_column: 0,
        },
        enclosing_symbol: None,
        is_external: false,
        documentation: vec![],
        details: SymbolDetails::Function(FunctionDetails::default()),
    }
}

#[test]
fn test_convert_visibility() {
    assert!(matches!(
        convert_visibility(&Visibility::Public),
        NodeVisibility::Public
    ));
    assert!(matches!(
        convert_visibility(&Visibility::Private),
        NodeVisibility::Private
    ));
}

#[test]
fn test_create_type_info_from_class() {
    let def = test_function_def("TestClass");
    let info = create_type_info(&def, 100, DocScore::new(4, 5));
    assert_eq!(info.definition.type_kind, TypeKind::Class);
    assert!(!info.definition.is_abstract);
}

#[test]
fn test_is_enclosed_by_abstract_type_with_protocol() {
    let protocol_id = "MyProtocol#";
    let semantic_data = SemanticData {
        project_root: "/test".to_string(),
        documents: vec![DocumentSemantics {
            relative_path: "test.py".to_string(),
            language: "python".to_string(),
            definitions: vec![SymbolDefinition {
                symbol_id: protocol_id.to_string(),
                kind: SymbolKind::Protocol,
                name: "MyProtocol".to_string(),
                display_name: "MyProtocol".to_string(),
                location: SourceLocation {
                    file_path: "test.py".to_string(),
                    line: 0,
                    column: 0,
                },
                span: SemanticSpan {
                    start_line: 0,
                    start_column: 0,
                    end_line: 5,
                    end_column: 0,
                },
                enclosing_symbol: None,
                is_external: false,
                documentation: vec![],
                details: SymbolDetails::Type(TypeDetails {
                    kind: SemanticTypeKind::Interface,
                    is_abstract: true,
                    is_final: false,
                    visibility: Visibility::Public,
                    type_params: vec![],
                    implements: vec![],
                    inherits: vec![],
                    fields: vec![],
                }),
            }],
            references: vec![],
        }],
        external_symbols: vec![],
    };

    assert!(is_enclosed_by_abstract_type(
        &Some(protocol_id.to_string()),
        &semantic_data
    ));
    assert!(!is_enclosed_by_abstract_type(&None, &semantic_data));
    assert!(!is_enclosed_by_abstract_type(
        &Some("NonExistent#".to_string()),
        &semantic_data
    ));
}

#[test]
fn test_extract_signature_span_python() {
    let source = "    def method(self, x: int) -> str:\n        return str(x)\n        pass\n";
    let span = SemanticSpan {
        start_line: 0,
        start_column: 4,
        end_line: 2,
        end_column: 12,
    };

    let sig_span = extract_signature_span(&span, source);

    // Should stop at the first line with colon
    assert_eq!(sig_span.start_line, 0);
    assert_eq!(sig_span.end_line, 0);
}

fn function_def(symbol_id: &str, name: &str, line: u32, doc: Option<&str>) -> SymbolDefinition {
    SymbolDefinition {
        symbol_id: symbol_id.to_string(),
        kind: SymbolKind::Function,
        name: name.to_string(),
        display_name: name.to_string(),
        location: SourceLocation { file_path: "m.py".to_string(), line, column: 0 },
        span: SemanticSpan { start_line: line, start_column: 0, end_line: line, end_column: 12 },
        enclosing_symbol: None,
        is_external: false,
        documentation: doc.map(|d| vec![d.to_string()]).unwrap_or_default(),
        details: SymbolDetails::Function(FunctionDetails::default()),
    }
}

#[test]
fn build_creates_nodes_edges_sizes_and_scores() {
    let source = "def a(): b()\ndef b(): 1 + 2\n".to_string();
    let data = SemanticData {
        project_root: "/p".to_string(),
        documents: vec![DocumentSemantics {
            relative_path: "m.py".to_string(),
            language: "python".to_string(),
            definitions: vec![
                function_def("m/a().", "a", 0, None),
                function_def("m/b().", "b", 1, Some("Adds numbers.")),
            ],
            references: vec![SymbolReference {
                target_symbol: "m/b().".to_string(),
                location: SourceLocation { file_path: "m.py".to_string(), line: 0, column: 9 },
                enclosing_symbol: "m/a().".to_string(),
                role: ReferenceRole::Call,
                context: None,
            }],
        }],
        external_symbols: vec![],
    };
    let builder = GraphBuilder::new(TiktokenSizeFunction::new(), SimpleDocScorer::new());
    let graph = builder.build(data, &vec![source]);
    assert_eq!(graph.node_count(), 2);
    // the call, and the call-in edge back from b, whose signature is incomplete
    assert_eq!(graph.edge_count(), 2);
    let a = graph.get_node_by_symbol("m/a().").unwrap();
    let b = graph.get_node_by_symbol("m/b().").unwrap();
    assert_eq!(graph.outgoing_edges(a), vec![(b, EdgeKind::Call)]);
    assert_eq!(graph.outgoing_edges(b), vec![(a, EdgeKind::CallIn)]);
    match graph.node(a) {
        Node::Function(f) => {
            assert_eq!(f.core.id, 0);
            // "def" 1, "a():" 1 + 3/2 = 2, "b()" 1 + 2/2 = 2
            assert_eq!(f.core.context_size, 5);
            assert_eq!(f.core.doc_score, DocScore::new(0, 1));
        }
        Node::Variable(_) => panic!("expected a function node"),
    }
    match graph.node(b) {
        Node::Function(f) => {
            assert_eq!(f.core.id, 1);
            assert_eq!(f.core.doc_score, DocScore::new(1, 1));
        }
        Node::Variable(_) => panic!("expected a function node"),
    }
}

#[test]
fn build_sends_a_call_on_a_class_to_its_constructor() {
    let source = "class C:\n    def __init__(self): pass\ndef f(): C()\n".to_string();
    let mut class_def = function_def("m/C#", "C", 0, None);
    class_def.kind = SymbolKind::Class;
    class_def.span = SemanticSpan { start_line: 0, start_column: 0, end_line: 1, end_column: 28 };
    class_def.details = SymbolDetails::Type(TypeDetails::default());
    let mut init_def = function_def("m/C#__init__().", "__init__", 1, None);
    init_def.enclosing_symbol = Some("m/C#".to_string());
    let data = SemanticData {
        project_root: "/p".to_string(),
        documents: vec![DocumentSemantics {
            relative_path: "m.py".to_string(),
            language: "python".to_string(),
            definitions: vec![class_def, init_def, function_def("m/f().", "f", 2, None)],
            references: vec![SymbolReference {
                target_symbol: "m/C#".to_string(),
                location: SourceLocation { file_path: "m.py".to_string(), line: 2, column: 9 },
                enclosing_symbol: "m/f().".to_string(),
                role: ReferenceRole::Call,
                context: None,
            }],
        }],
        external_symbols: vec![],
    };
    let builder = GraphBuilder::new(TiktokenSizeFunction::new(), SimpleDocScorer::new());
    let graph = builder.build(data, &vec![source]);
    let f = graph.get_node_by_symbol("m/f().").unwrap();
    let init = graph.get_node_by_symbol("m/C#__init__().").unwrap();
    assert_eq!(graph.outgoing_edges(f), vec![(init, EdgeKind::Call)]);
}
