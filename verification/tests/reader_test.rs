use context_footprint::adapters::fs::reader::line_range;

#[test]
fn line_range_is_inclusive_and_cut_at_the_last_line() {
    let content = "a\nb\r\nc\n";
    assert_eq!(line_range(content, 2, 6), vec!["b".to_string(), "c".to_string()]);
    assert_eq!(line_range(content, 1, 1), vec!["a".to_string()]);
    assert_eq!(line_range(content, 4, 5), Vec::<String>::new());
    assert_eq!(line_range(content, 3, 2), Vec::<String>::new());
}

#[test]
fn line_range_counts_lines_from_one() {
    assert_eq!(line_range("a\nb", 1, 1), vec!["a".to_string()]);
    assert_eq!(line_range("a\nb", 2, 2), vec!["b".to_string()]);
}
