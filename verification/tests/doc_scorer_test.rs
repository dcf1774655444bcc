use context_footprint::adapters::doc_scorer::heuristic::HeuristicDocScorer;
use context_footprint::adapters::doc_scorer::simple::SimpleDocScorer;
use context_footprint::domain::node::DocScore;
use context_footprint::domain::policy::{DocumentationScorer, NodeInfo, NodeType};

fn value(s: DocScore) -> f64 {
    s.numerator as f64 / s.denominator as f64
}

fn node_info(language: Option<&str>, signature: Option<&str>) -> NodeInfo {
    NodeInfo {
        node_type: NodeType::Function,
        name: "test".to_string(),
        signature: signature.map(|s| s.to_string()),
        language: language.map(|s| s.to_string()),
    }
}

#[test]
fn test_rust_param_coverage() {
    let s = HeuristicDocScorer::new();
    let info = node_info(Some("rs"), Some("fn foo(bar: i32, baz: String) -> bool"));

    let doc = "Checks if bar and baz are valid. Returns true if so.";
    let score = value(s.score(&info, Some(doc)));
    assert!(score >= 0.8, "Score should be >= 0.8, got {}", score);

    let doc2 = "Checks if bar is valid.";
    let score2 = value(s.score(&info, Some(doc2)));
    assert!(score2 < 0.5);
    assert!(score2 >= 0.2);
}

#[test]
fn test_python_param_coverage() {
    let s = HeuristicDocScorer::new();
    let info = node_info(Some("py"), Some("def foo(bar: int, baz='hello') -> str:"));

    let doc = "Concatenates bar and baz. Returns a string.";
    let score = value(s.score(&info, Some(doc)));
    assert!(score >= 0.7);
}

#[test]
fn test_no_params_no_return() {
    let s = HeuristicDocScorer::new();
    let info = node_info(Some("rs"), Some("fn foo()"));

    let doc = "A simple function that does nothing.";
    let score = value(s.score(&info, Some(doc)));
    assert!((score - 0.4).abs() < 0.001);
}

#[test]
fn test_keyword_fallback() {
    let s = HeuristicDocScorer::new();
    let info = node_info(None, None);

    let doc = "This is a function. Returns something. Args: none.";
    let score = value(s.score(&info, Some(doc)));
    assert!((score - 0.7).abs() < 0.001);
}

#[test]
fn test_empty_doc_is_zero() {
    let s = HeuristicDocScorer::new();
    let info = node_info(None, None);
    assert_eq!(value(s.score(&info, None)), 0.0);
    assert_eq!(value(s.score(&info, Some("  "))), 0.0);
}

#[test]
fn test_partial_parameter_score() {
    let s = HeuristicDocScorer::new();
    let info = node_info(Some("rs"), Some("fn multi(x: i32, y: i32)"));

    let doc = "This function uses x but forgets the other.";
    let score = value(s.score(&info, Some(doc)));
    assert!((score - 0.4).abs() < 0.001, "Expected 0.4, got {}", score);
}

#[test]
fn test_word_boundary_matching() {
    let s = HeuristicDocScorer::new();
    let info = node_info(Some("rs"), Some("fn search(id: u32)"));

    let doc_bad = "It checks valid_id and verifies identity.";
    let score_bad = value(s.score(&info, Some(doc_bad)));
    assert!(score_bad < 0.3);

    let doc_good = "It checks the id of the user.";
    let score_good = value(s.score(&info, Some(doc_good)));
    assert!(score_good > score_bad);
}

#[test]
fn test_ignore_self_in_signatures() {
    let s = HeuristicDocScorer::new();

    let info_rs = node_info(Some("rs"), Some("fn method(&self, data: String)"));
    let doc = "Processes the data.";
    let score_rs = value(s.score(&info_rs, Some(doc)));
    assert!(score_rs >= 0.5);

    let info_py = node_info(Some("py"), Some("def method(self, data: str):"));
    let score_py = value(s.score(&info_py, Some(doc)));
    assert!(score_py >= 0.5);
}

#[test]
fn test_complex_python_args() {
    let s = HeuristicDocScorer::new();
    let info = node_info(Some("py"), Some("def foo(*args, **kwargs):"));

    let doc = "Passes args and kwargs to another function.";
    let score = value(s.score(&info, Some(doc)));
    assert!(score >= 0.4);
}

#[test]
fn test_no_doc_returns_zero() {
    let s = SimpleDocScorer::new();
    let info = node_info(None, None);
    assert_eq!(value(s.score(&info, None)), 0.0);
}

#[test]
fn test_empty_doc_returns_zero() {
    let s = SimpleDocScorer::new();
    let info = node_info(None, None);
    assert_eq!(value(s.score(&info, Some(""))), 0.0);
    assert_eq!(value(s.score(&info, Some("   \n\t  "))), 0.0);
}

#[test]
fn test_valid_doc_returns_one() {
    let s = SimpleDocScorer::new();
    let info = node_info(None, None);
    assert_eq!(value(s.score(&info, Some("Does something."))), 1.0);
    assert_eq!(value(s.score(&info, Some("  doc  "))), 1.0);
}

#[test]
fn heuristic_long_description_scores_exactly() {
    // 16 words, no signature, no keywords: description 0.2, coverage 0.
    let s = HeuristicDocScorer::new();
    let info = node_info(None, None);
    let doc = "one two three four five six seven eight nine ten eleven twelve thirteen fourteen fifteen sixteen";
    let score = s.score(&info, Some(doc));
    assert_eq!(score.numerator * 10, score.denominator * 2);
}

#[test]
fn heuristic_lowercases_before_matching() {
    // "RETURNS" must count as the return keyword once lower-cased.
    let s = HeuristicDocScorer::new();
    let info = node_info(None, None);
    let score = value(s.score(&info, Some("RETURNS")));
    assert!((score - 0.3).abs() < 0.001);
}

#[test]
fn heuristic_reads_signatures_by_language() {
    let s = HeuristicDocScorer::new();
    // Python cuts up to the last ')': the first ')' may come before the '('.
    let info_py = node_info(Some("py"), Some("x) def f(data):"));
    let score_py = value(s.score(&info_py, Some("Uses data.")));
    // No return (0.1) and the one parameter covered (0.4).
    assert!((score_py - 0.5).abs() < 0.001);
    // Other languages do not cut the signature at all: no params (0.2), no return (0.1).
    let info_go = node_info(Some("go"), Some(")("));
    let score_go = value(s.score(&info_go, Some("Does a thing.")));
    assert!((score_go - 0.3).abs() < 0.001);
}

#[test]
fn keyword_score_is_capped_at_six_tenths() {
    let s = HeuristicDocScorer::new();
    let info = node_info(None, None);
    // 6 words (0.1); returns, args and an example mention 0.7, capped at 0.6
    let doc = "Returns the sum. Args: two. Example";
    let score = value(s.score(&info, Some(doc)));
    assert!((score - 0.7).abs() < 0.001, "got {}", score);
    // 4 words: only the capped keywords count
    let short = "Returns x, args, example";
    assert!((value(s.score(&info, Some(short))) - 0.6).abs() < 0.001);
}
