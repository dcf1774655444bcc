use context_footprint::adapters::size_function::tiktoken::TiktokenSizeFunction;
use context_footprint::domain::node::SourceSpan;
use context_footprint::domain::policy::SizeFunction;

#[test]
fn test_single_line_span() {
    let f = TiktokenSizeFunction::new();
    let source = "def foo(): return 42";
    let span = SourceSpan {
        start_line: 0,
        start_column: 0,
        end_line: 0,
        end_column: 18,
    };
    let n = f.compute(source, &span, &[]);
    assert!(n >= 1);
}

#[test]
fn test_multi_line_span() {
    let f = TiktokenSizeFunction::new();
    let source = "line0\nline1\nline2";
    let span = SourceSpan {
        start_line: 0,
        start_column: 0,
        end_line: 2,
        end_column: 5,
    };
    let n = f.compute(source, &span, &[]);
    assert!(n >= 1);
}

#[test]
fn test_boundary_handling() {
    let f = TiktokenSizeFunction::new();
    let source = "ab";
    let span = SourceSpan {
        start_line: 0,
        start_column: 1,
        end_line: 0,
        end_column: 2,
    };
    let n = f.compute(source, &span, &[]);
    assert!(n <= source.len() as u32); // sanity: not larger than char count
}

#[test]
fn test_empty_span_returns_zero() {
    let f = TiktokenSizeFunction::new();
    let source = "x";
    let span = SourceSpan {
        start_line: 0,
        start_column: 0,
        end_line: 0,
        end_column: 0,
    };
    let n = f.compute(source, &span, &[]);
    assert_eq!(n, 0);
}

#[test]
fn test_out_of_range_line_returns_zero() {
    let f = TiktokenSizeFunction::new();
    let source = "one line";
    let span = SourceSpan {
        start_line: 10,
        start_column: 0,
        end_line: 10,
        end_column: 5,
    };
    assert_eq!(f.compute(source, &span, &[]), 0);
}

#[test]
fn test_exclude_comments() {
    let f = TiktokenSizeFunction::new();
    // 10 lines of comments + 1 line of code
    let source = "/// doc\n/// doc\n/// doc\n/// doc\n/// doc\n/// doc\n/// doc\n/// doc\n/// doc\n/// doc\nfn main() {}";
    let span = SourceSpan {
        start_line: 0,
        start_column: 0,
        end_line: 10,
        end_column: 12,
    };

    let doc_texts = vec!["doc".to_string()];
    let size = f.compute(source, &span, &doc_texts);

    // "fn main() {}" should be very few tokens (around 3-5)
    assert!(size < 10);
}

#[test]
fn token_count_exact_values() {
    let f = TiktokenSizeFunction::new();
    // "fn" 1, "main()" 1 + 2/2 = 2, "{}" 1 + 2/2 = 2
    let source = "fn main() {}";
    let span = SourceSpan { start_line: 0, start_column: 0, end_line: 0, end_column: 12 };
    assert_eq!(f.compute(source, &span, &[]), 5);
    // Comment lines are dropped: only "x = 1" is left (x 1, = 1, 1 1)
    let source = "# comment\nx = 1\n";
    let span = SourceSpan { start_line: 0, start_column: 0, end_line: 1, end_column: 5 };
    assert_eq!(f.compute(source, &span, &[]), 3);
    // Documentation text is removed before counting: "def" 1, "f():" 1 + 3/2 = 2, "pass" 1
    let source = "def f(): \"explain things\" pass";
    let span = SourceSpan { start_line: 0, start_column: 0, end_line: 0, end_column: 31 };
    let with_doc = f.compute(source, &span, &["\"explain things\"".to_string()]);
    assert_eq!(with_doc, 4);
    let without_removal = f.compute(source, &span, &[]);
    assert_eq!(without_removal, 6);
}

#[test]
fn token_count_multi_byte_columns() {
    let f = TiktokenSizeFunction::new();
    // columns are byte offsets: "é" takes two bytes, so column 3 starts at "b"
    let source = "aé b c";
    let span = SourceSpan { start_line: 0, start_column: 3, end_line: 0, end_column: 7 };
    assert_eq!(f.compute(source, &span, &[]), 2);
}
