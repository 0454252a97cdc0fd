use saql_editor::validation::{extract_line_col, number_after, validation_result};

#[test]
fn line_and_column_are_read_from_parser_messages() {
    let msg = "sql parser error: Expected: an expression, found: EOF at Line: 1, Column: 8";
    assert_eq!(extract_line_col(msg), (Some(1), Some(8)));
    assert_eq!(extract_line_col("Line: 12, Column: 345"), (Some(12), Some(345)));
}

#[test]
fn missing_markers_or_digits_give_none() {
    assert_eq!(extract_line_col("syntax error"), (None, None));
    assert_eq!(extract_line_col("Line: x, Column: 3"), (None, Some(3)));
    assert_eq!(extract_line_col("Line:5"), (None, None));
    assert_eq!(extract_line_col(""), (None, None));
}

#[test]
fn the_first_marker_counts() {
    assert_eq!(number_after("Line: , Line: 4", "Line: "), None);
    assert_eq!(number_after("Line: 2 then Line: 4", "Line: "), Some(2));
}

#[test]
fn numbers_too_large_give_none() {
    assert_eq!(number_after("Line: 99999999999999999999999999", "Line: "), None);
    assert_eq!(number_after("Line: 007x", "Line: "), Some(7));
    let max = format!("Line: {}", usize::MAX);
    assert_eq!(number_after(&max, "Line: "), Some(usize::MAX));
}

#[test]
fn a_parsed_query_is_valid() {
    let r = validation_result(None);
    assert!(r.valid);
    assert_eq!(r.message, None);
    assert_eq!(r.line, None);
    assert_eq!(r.col, None);
}

#[test]
fn a_failed_parse_carries_its_position() {
    let msg = "sql parser error: Expected: end of statement, found: FORM at Line: 2, Column: 10".to_string();
    let r = validation_result(Some(msg.clone()));
    assert!(!r.valid);
    assert_eq!(r.message, Some(msg));
    assert_eq!(r.line, Some(2));
    assert_eq!(r.col, Some(10));
}
