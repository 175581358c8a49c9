use ext_format::util::{unescape, unindent};

#[test]
fn test_unindent_basic() {
    let original = "    Line1\n    Line2";
    let expected = "Line1\nLine2";
    assert_eq!(unindent(original), expected);
}

#[test]
fn test_unindent_mixed_indent() {
    let original = "    Line1\n  Line2";
    let expected = "  Line1\nLine2";
    assert_eq!(unindent(original), expected);
}

#[test]
fn test_unindent_no_indent() {
    let original = "Line1\nLine2";
    let expected = "Line1\nLine2";
    assert_eq!(unindent(original), expected);
}

#[test]
fn test_unindent_empty_string() {
    let original = "";
    let expected = "";
    assert_eq!(unindent(original), expected);
}

#[test]
fn test_unindent_single_line() {
    let original = "    Line1";
    let expected = "Line1";
    assert_eq!(unindent(original), expected);
}

#[test]
fn test_unindent_new_lines_only() {
    let original = "\n\n\n";
    let expected = "\n\n\n";
    assert_eq!(unindent(original), expected);
}

#[test]
fn test_unindent_empty_lines() {
    let original = "    Line1\n  \n  Line2";
    let expected = "  Line1\n\nLine2";
    assert_eq!(unindent(original), expected);
}

#[test]
fn test_unindent_blank_line_of_exact_indent_becomes_empty() {
    assert_eq!(unindent("  a\n  "), "a\n");
}

#[test]
fn test_unescape_empty_string() {
    assert_eq!(unescape(""), "");
}

#[test]
fn test_unescape_no_escape_characters() {
    assert_eq!(unescape("hello"), "hello");
}

#[test]
fn test_unescape_newline() {
    assert_eq!(unescape("hello\\nworld"), "hello\nworld");
}

#[test]
fn test_unescape_tab() {
    assert_eq!(unescape("hello\\tworld"), "hello\tworld");
}

#[test]
fn test_unescape_return() {
    assert_eq!(unescape("hello\\rworld"), "hello\rworld");
}

#[test]
fn test_unescape_backslash() {
    assert_eq!(unescape("hello\\\\world"), "hello\\world");
}

#[test]
fn test_unescape_hex() {
    assert_eq!(unescape("hello\\x41world"), "helloAworld");
}

#[test]
fn test_unescape_hex_lowercase() {
    assert_eq!(unescape("hello\\x41world"), "helloAworld");
    assert_eq!(unescape("hello\\x41world"), "helloAworld");
}

#[test]
fn test_invalid_first_hex() {
    assert_eq!(unescape("hello\\xg1world"), "hello\\xg1world");
}

#[test]
fn test_invalid_second_hex() {
    assert_eq!(unescape("hello\\x4gworld"), "hello\\x4gworld");
}

#[test]
fn test_unescape_incomplete_escape() {
    assert_eq!(unescape("hello\\world"), "hello\\world");
    assert_eq!(unescape("hello\\"), "hello\\");
    assert_eq!(unescape("hello\\x"), "hello\\x");
    assert_eq!(unescape("hello\\x4"), "hello\\x4");
}

#[test]
fn test_unescape_mixed() {
    assert_eq!(
        unescape("hello\\nworld\\tfoo\\rbar\\\\\\x41\\x42"),
        "hello\nworld\tfoo\rbar\\AB"
    );
}

#[test]
fn test_unescape_trailing_backslash() {
    assert_eq!(unescape("hello\\"), "hello\\");
}

#[test]
fn test_unescape_trailing_hex() {
    assert_eq!(unescape("hello\\x"), "hello\\x");
}

#[test]
fn test_unescape_hex_dollar() {
    assert_eq!(unescape("a\\x24b"), "a$b");
}

#[test]
fn test_unescape_hex_lower_digits() {
    assert_eq!(unescape("\\x6a\\x4B"), "jK");
}
