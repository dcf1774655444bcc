use context_footprint::adapters::scip::parser::{
    encloses, find_enclosing_definition, parameter_name_from_symbol,
    parent_function_from_parameter_symbol, parse_range,
};

#[test]
fn test_parse_range() {
    assert_eq!(parse_range(&[1, 2, 3]), (1, 2, 1, 3));
    assert_eq!(parse_range(&[1, 2, 3, 4]), (1, 2, 3, 4));
    assert_eq!(parse_range(&[1]), (0, 0, 0, 0));
}

#[test]
fn test_encloses() {
    let outer = vec![1, 0, 10, 0];
    let inner = vec![2, 0, 5, 0];
    let outside = vec![0, 0, 5, 0];

    assert!(encloses(&outer, &inner));
    assert!(!encloses(&inner, &outer));
    assert!(!encloses(&outer, &outside));

    // Same range
    assert!(encloses(&outer, &outer));
}

#[test]
fn test_find_enclosing_definition() {
    let defs = vec![
        (vec![0, 0, 100, 0], "global"),
        (vec![10, 0, 50, 0], "func"),
        (vec![20, 0, 30, 0], "inner"),
    ];

    let ref_range = vec![25, 0, 26, 0];
    assert_eq!(find_enclosing_definition(&ref_range, &defs), Some("inner"));

    let ref_range_func = vec![15, 0, 16, 0];
    assert_eq!(
        find_enclosing_definition(&ref_range_func, &defs),
        Some("func")
    );

    let ref_range_none = vec![101, 0, 102, 0];
    assert_eq!(find_enclosing_definition(&ref_range_none, &defs), None);
}

#[test]
fn test_parent_function_from_parameter_symbol() {
    // Parameter symbol: function symbol + ".(param_name)"
    assert_eq!(
        parent_function_from_parameter_symbol("scip python pkg . main . foo().(x)"),
        Some("scip python pkg . main . foo().".to_string())
    );
    assert_eq!(
        parent_function_from_parameter_symbol("pkg . Class.method().(self)"),
        Some("pkg . Class.method().".to_string())
    );
    // Real SCIP-style symbols (e.g. from scip-python with backtick package path)
    let method_param_self = "scip-python python airelay 0.1.0 `app.adapters.billing.arq_billing_adapter`/ArqBillingAdapter#emit_usage().(self)";
    assert_eq!(
        parent_function_from_parameter_symbol(method_param_self),
        Some("scip-python python airelay 0.1.0 `app.adapters.billing.arq_billing_adapter`/ArqBillingAdapter#emit_usage().".to_string())
    );
    let method_param_event = "scip-python python airelay 0.1.0 `app.adapters.billing.arq_billing_adapter`/ArqBillingAdapter#emit_usage().(event)";
    assert_eq!(
        parent_function_from_parameter_symbol(method_param_event),
        Some("scip-python python airelay 0.1.0 `app.adapters.billing.arq_billing_adapter`/ArqBillingAdapter#emit_usage().".to_string())
    );
    assert_eq!(parent_function_from_parameter_symbol("not_a_param"), None);
    assert_eq!(parent_function_from_parameter_symbol("foo()."), None);
    // Term form (function as term, not method)
    assert_eq!(
        parent_function_from_parameter_symbol("pkg . foo.(x)"),
        Some("pkg . foo.".to_string())
    );
}

#[test]
fn test_parameter_name_from_symbol() {
    assert_eq!(
        parameter_name_from_symbol("foo().(x)"),
        Some("x".to_string())
    );
    assert_eq!(
        parameter_name_from_symbol("pkg . Class.method().(self)"),
        Some("self".to_string())
    );
    assert_eq!(
        parameter_name_from_symbol("scip-python python pkg . main . foo().(x)"),
        Some("x".to_string())
    );
    assert_eq!(
        parameter_name_from_symbol("scip-python python airelay 0.1.0 `app.adapters.billing.arq_billing_adapter`/ArqBillingAdapter#emit_usage().(self)"),
        Some("self".to_string())
    );
    assert_eq!(
        parameter_name_from_symbol("scip-python python airelay 0.1.0 `app.adapters.billing.arq_billing_adapter`/ArqBillingAdapter#emit_usage().(event)"),
        Some("event".to_string())
    );
    assert_eq!(parameter_name_from_symbol("foo()."), None);
}

#[test]
fn parameter_symbol_with_non_ascii_name() {
    // byte offsets of the match are turned into character positions
    assert_eq!(
        parameter_name_from_symbol("pkg . naïve().(café)"),
        Some("café".to_string())
    );
    assert_eq!(
        parent_function_from_parameter_symbol("pkg . naïve().(café)"),
        Some("pkg . naïve().".to_string())
    );
}

#[test]
fn parameter_symbol_splits_into_parent_and_name() {
    let s = "pkg . foo.(x)";
    let parent = parent_function_from_parameter_symbol(s).unwrap();
    let name = parameter_name_from_symbol(s).unwrap();
    assert!(parent.ends_with('.'));
    assert_eq!(format!("{}({})", parent, name), s);
    assert_eq!(parent_function_from_parameter_symbol("not_a_param"), None);
    assert_eq!(parameter_name_from_symbol("not_a_param"), None);
}
