use context_footprint::domain::semantic::{
    is_node_kind, is_type_kind, resolve_to_node_symbol, resolves_within, SymbolKind,
};
use vstd::hash_map::StringHashMap;
use vstd::hash_set::StringHashSet;

#[test]
fn test_is_node_kind() {
    assert!(is_node_kind(&SymbolKind::Function));
    assert!(is_node_kind(&SymbolKind::Method));
    assert!(is_node_kind(&SymbolKind::Variable));
    assert!(!is_node_kind(&SymbolKind::Class));
    assert!(!is_node_kind(&SymbolKind::Parameter));
}

#[test]
fn test_is_type_kind() {
    assert!(is_type_kind(&SymbolKind::Class));
    assert!(is_type_kind(&SymbolKind::Interface));
    assert!(!is_type_kind(&SymbolKind::Function));
    assert!(!is_type_kind(&SymbolKind::Variable));
}

#[test]
fn test_resolve_to_node_symbol() {
    let mut node_symbols = StringHashSet::new();
    node_symbols.insert("pkg::func()".to_string());

    let mut enclosing_map = StringHashMap::new();
    enclosing_map.insert("pkg::func().local".to_string(), "pkg::func()".to_string());

    // Direct node
    assert_eq!(
        resolve_to_node_symbol("pkg::func()", &node_symbols, &enclosing_map),
        Some("pkg::func()".to_string())
    );

    // Child of node
    assert_eq!(
        resolve_to_node_symbol("pkg::func().local", &node_symbols, &enclosing_map),
        Some("pkg::func()".to_string())
    );

    // Unknown symbol
    assert_eq!(
        resolve_to_node_symbol("unknown", &node_symbols, &enclosing_map),
        None
    );
}

#[test]
fn resolves_within_counts_the_steps_to_a_node_or_chain_end() {
    let mut node_symbols = StringHashSet::new();
    node_symbols.insert("Outer#".to_string());
    let mut enclosing_map = StringHashMap::new();
    enclosing_map.insert("Outer#inner().".to_string(), "Outer#".to_string());
    enclosing_map.insert("a".to_string(), "b".to_string());
    enclosing_map.insert("b".to_string(), "a".to_string());
    // A node resolves at once; its member after one step.
    assert!(resolves_within("Outer#", &node_symbols, &enclosing_map, 0));
    assert!(!resolves_within("Outer#inner().", &node_symbols, &enclosing_map, 0));
    assert!(resolves_within("Outer#inner().", &node_symbols, &enclosing_map, 1));
    // A symbol without a parent ends its chain; a cycle never does.
    assert!(resolves_within("free", &node_symbols, &enclosing_map, 0));
    assert!(!resolves_within("a", &node_symbols, &enclosing_map, 100));
}
