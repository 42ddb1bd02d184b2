use ambient_engine::ast::Span;
use ambient_engine::compiler::functions::span_to_line_col;

#[test]
fn debug_tests_test_span_to_line_col() {
    let source = "line one\nline two\nline three";

    // Line 1, column 1
    let (line, col) = span_to_line_col(source, Span::new(0, 1));
    assert_eq!((line, col), (1, 1));

    // Line 1, column 5 ("one")
    let (line, col) = span_to_line_col(source, Span::new(5, 8));
    assert_eq!((line, col), (1, 6));

    // Line 2, column 1
    let (line, col) = span_to_line_col(source, Span::new(9, 10));
    assert_eq!((line, col), (2, 1));

    // Line 3, column 6 ("three")
    let (line, col) = span_to_line_col(source, Span::new(23, 28));
    assert_eq!((line, col), (3, 6));
}

#[test]
fn tests_test_span_to_line_col() {
    let source = "line one\nline two\nline three";

    let (line, col) = span_to_line_col(source, Span::new(0, 1));
    assert_eq!((line, col), (1, 1));

    let (line, col) = span_to_line_col(source, Span::new(5, 8));
    assert_eq!((line, col), (1, 6));

    let (line, col) = span_to_line_col(source, Span::new(9, 10));
    assert_eq!((line, col), (2, 1));

    let (line, col) = span_to_line_col(source, Span::new(23, 28));
    assert_eq!((line, col), (3, 6));
}

#[test]
fn columns_count_characters_and_offsets_count_bytes() {
    // "é" takes two bytes, so byte offset 3 is the third character.
    assert_eq!(span_to_line_col("aéb\n", Span::new(3, 4)), (1, 3));
    assert_eq!(span_to_line_col("", Span::new(7, 9)), (1, 1));
}
