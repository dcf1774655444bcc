use context_footprint::adapters::scip::adapter::{
    convert_scip_kind, index_is_readable, parse_signature,
};
use context_footprint::domain::policy::is_signature_readable;
use context_footprint::scip::{Index, SignatureDocumentation, SymbolInformation};
use context_footprint::domain::semantic::SymbolKind;

#[test]
fn test_parse_signature_simple() {
    let (params, ret) = parse_signature("(x: int, y: str) -> bool");
    assert_eq!(params.len(), 2);
    assert_eq!(params[0].name, "x");
    assert_eq!(params[0].param_type, Some("int".to_string()));
    assert_eq!(ret, Some("bool".to_string()));
}

#[test]
fn test_parse_signature_no_types() {
    let (params, ret) = parse_signature("(x, y)");
    assert_eq!(params.len(), 2);
    assert_eq!(params[0].name, "x");
    assert_eq!(params[0].param_type, None);
    assert_eq!(ret, None);
}

#[test]
fn test_convert_scip_kind() {
    // SCIP kind values: Function = 17, Class = 7, Method = 26
    assert_eq!(convert_scip_kind(17), SymbolKind::Function);
    assert_eq!(convert_scip_kind(7), SymbolKind::Class);
    assert_eq!(convert_scip_kind(26), SymbolKind::Method);
}

fn info_with_signature(text: &str) -> SymbolInformation {
    SymbolInformation {
        symbol: "pkg/f().".to_string(),
        documentation: vec![],
        relationships: vec![],
        kind: 17,
        display_name: "f".to_string(),
        signature_documentation: Some(SignatureDocumentation { text: text.to_string() }),
        enclosing_symbol: String::new(),
    }
}

#[test]
fn signature_readability() {
    assert!(is_signature_readable("(a: int) -> str"));
    assert!(is_signature_readable("no brackets"));
    assert!(is_signature_readable("only ( open"));
    assert!(!is_signature_readable(") before ("));
}

#[test]
fn index_readability_looks_at_every_signature() {
    let good = Index {
        metadata: None,
        documents: vec![],
        external_symbols: vec![info_with_signature("(x) -> int")],
    };
    assert!(index_is_readable(&good));
    let bad = Index {
        metadata: None,
        documents: vec![],
        external_symbols: vec![info_with_signature("(x) -> int"), info_with_signature(")x(")],
    };
    assert!(!index_is_readable(&bad));
}
