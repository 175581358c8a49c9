use ext_format::ast::{ParseError, QuoteToken};
use ext_format::parse::{parse_binding, parse_bound_ident, parse_group, parse_ident,
    parse_toplevel, parse_variable_idents};
use ext_format::util::{unescape, unindent};

fn lit(s: &str) -> QuoteToken {
    QuoteToken::Literal(s.to_string())
}

fn var(name: &str) -> QuoteToken {
    QuoteToken::Variable(name.to_string(), None)
}

#[test]
fn test_parse_toplevel() {
    let source = unescape(&unindent(
        r#"
        void $name($($types $names)(, )*) {
            $func("hallo", $num);
            $(@lines printf("$($lines)( --> )* %d, %d", $nums, $nums2))(;\n    )*;
        }
            "#,
    ));
    let tokens = parse_toplevel(source.trim()).unwrap();

    assert_eq!(
        tokens,
        vec![
            lit("void "),
            var("name"),
            lit("("),
            QuoteToken::Group(
                vec![var("types"), lit(" "), var("names")],
                Some(", ".to_string())
            ),
            lit(") {\n    "),
            var("func"),
            lit("(\"hallo\", "),
            var("num"),
            lit(");\n    "),
            QuoteToken::Group(
                vec![
                    QuoteToken::HiddenVariable("lines".to_string(), None),
                    lit(" printf(\""),
                    QuoteToken::Group(vec![var("lines")], Some(" --> ".to_string())),
                    lit(" %d, %d\", "),
                    var("nums"),
                    lit(", "),
                    var("nums2"),
                    lit(")")
                ],
                Some(";\n    ".to_string())
            ),
            lit(";\n}")
        ]
    );
}

#[test]
fn test_parse_toplevel_matrix() {
    let source = unescape(&unindent(
        r#"
        void func() {
            $(@{matrix:inner_matrix}printf("$($inner_matrix) *");)(\n    )*
            printf("\\(");
        }
            "#,
    ));
    let tokens = parse_toplevel(source.trim()).unwrap();

    assert_eq!(
        tokens,
        vec![
            lit("void func() {\n    "),
            QuoteToken::Group(
                vec![
                    QuoteToken::HiddenVariable(
                        "matrix".to_string(),
                        Some("inner_matrix".to_string())
                    ),
                    lit("printf(\""),
                    QuoteToken::Group(vec![var("inner_matrix")], Some(" ".to_string())),
                    lit("\");")
                ],
                Some("\n    ".to_string())
            ),
            lit("\n    printf(\"(\");\n}")
        ]
    );
}

#[test]
fn test_parse_group_basic() {
    let (token, _) = parse_group("(literal)*", 0, 0).unwrap();
    match token {
        QuoteToken::Group(tokens, separator) => {
            assert_eq!(1, tokens.len());
            assert_eq!(tokens[0], lit("literal"));
            assert_eq!(separator, None);
        },
        other => panic!("unexpected node: {:?}", other),
    }
}

#[test]
fn test_parse_group_with_char_separator() {
    let (token, _) = parse_group("(literal);*", 0, 0).unwrap();
    match token {
        QuoteToken::Group(tokens, separator) => {
            assert_eq!(1, tokens.len());
            assert_eq!(tokens[0], lit("literal"));
            assert_eq!(separator, Some(";".to_string()));
        },
        other => panic!("unexpected node: {:?}", other),
    }
}

#[test]
fn test_parse_group_with_string_separator() {
    let (token, _) = parse_group("(literal)(=>)*", 0, 0).unwrap();
    match token {
        QuoteToken::Group(tokens, separator) => {
            assert_eq!(1, tokens.len());
            assert_eq!(tokens[0], lit("literal"));
            assert_eq!(separator, Some("=>".to_string()));
        },
        other => panic!("unexpected node: {:?}", other),
    }
}

#[test]
fn test_parse_group_with_escaped_separator() {
    let (token, _) = parse_group("(literal)(\n)*", 0, 0).unwrap();
    match token {
        QuoteToken::Group(tokens, separator) => {
            assert_eq!(1, tokens.len());
            assert_eq!(tokens[0], lit("literal"));
            assert_eq!(separator, Some("\n".to_string()));
        },
        other => panic!("unexpected node: {:?}", other),
    }
}

#[test]
fn test_parse_group_with_escaped_escaped_separator() {
    let (token, _) = parse_group("(literal)(\\n)*", 0, 0).unwrap();
    match token {
        QuoteToken::Group(tokens, separator) => {
            assert_eq!(1, tokens.len());
            assert_eq!(tokens[0], lit("literal"));
            assert_eq!(separator, Some("\\n".to_string()));
        },
        other => panic!("unexpected node: {:?}", other),
    }
}

#[test]
fn test_parse_group_with_variable() {
    let (token, _) = parse_group("(literal $var)*", 0, 0).unwrap();
    match token {
        QuoteToken::Group(tokens, _) => {
            assert_eq!(tokens[0], lit("literal "));
            assert_eq!(tokens[1], var("var"));
        },
        other => panic!("unexpected node: {:?}", other),
    }
}

#[test]
fn test_parse_group_with_variable_and_trailing_literal() {
    let (token, _) = parse_group("(literal1 $variable literal2)*", 0, 0).unwrap();
    match token {
        QuoteToken::Group(tokens, _) => {
            assert_eq!(tokens[0], lit("literal1 "));
            assert_eq!(tokens[1], var("variable"));
            assert_eq!(tokens[2], lit(" literal2"));
        },
        other => panic!("unexpected node: {:?}", other),
    }
}

#[test]
fn test_parse_group_with_hidden_variable() {
    let (token, _) = parse_group("(literal @var)*", 0, 0).unwrap();
    match token {
        QuoteToken::Group(tokens, _) => {
            assert_eq!(tokens[0], lit("literal "));
            assert_eq!(tokens[1], QuoteToken::HiddenVariable("var".to_string(), None));
        },
        other => panic!("unexpected node: {:?}", other),
    }
}

#[test]
fn test_parse_group_with_hidden_variable_and_trailing_literal() {
    let (token, _) = parse_group("(literal1 @variable literal2)**", 0, 0).unwrap();
    match token {
        QuoteToken::Group(tokens, _) => {
            assert_eq!(tokens[0], lit("literal1 "));
            assert_eq!(tokens[1], QuoteToken::HiddenVariable("variable".to_string(), None));
            assert_eq!(tokens[2], lit(" literal2"));
        },
        other => panic!("unexpected node: {:?}", other),
    }
}

#[test]
fn test_parse_group_unexpected_end() {
    assert_eq!(parse_group("(", 0, 0), Err(ParseError::UnterminatedGroup));
}

#[test]
fn test_parse_group_with_balanced_parenthesis() {
    let expected_literal = "literal () ((literal), ((), ()))";
    let (token, _) = parse_group("(literal () ((literal), ((), ())))*", 0, 0).unwrap();
    match token {
        QuoteToken::Group(tokens, _) => {
            assert_eq!(tokens[0], lit(expected_literal));
        },
        other => panic!("unexpected node: {:?}", other),
    }
}

#[test]
fn test_parse_group_with_unbalanced_parenthesis() {
    let expected_literal = "literal ( () ((literal, ((, ()))))";
    let (token, _) = parse_group("(literal \\( () (\\(literal, (\\(, ()))\\)\\))*", 0, 0).unwrap();
    match token {
        QuoteToken::Group(tokens, _) => {
            assert_eq!(tokens[0], lit(expected_literal));
        },
        other => panic!("unexpected node: {:?}", other),
    }
}

#[test]
fn test_parse_binding_with_variable() {
    let (token, _) = parse_binding("variable", 0, 0).unwrap();
    assert_eq!(token, var("variable"));
}

#[test]
fn test_parse_binding_invalid_start() {
    assert_eq!(parse_binding("1invalid", 0, 0), Err(ParseError::ExpectedIdentifier));
}

#[test]
fn test_parse_variable_idents_with_braces() {
    let ((ident, inner_ident), _) = parse_variable_idents("{foo:bar}", 0).unwrap();
    assert_eq!(ident, "foo");
    assert_eq!(inner_ident, Some("bar".to_string()));
}

#[test]
fn test_parse_variable_idents_with_braces_single_ident() {
    let ((ident, inner_ident), _) = parse_variable_idents("{foo}", 0).unwrap();
    assert_eq!(ident, "foo");
    assert_eq!(inner_ident, None);
}

#[test]
fn test_parse_variable_idents_without_braces() {
    let ((ident, inner_ident), _) = parse_variable_idents("foo", 0).unwrap();
    assert_eq!(ident, "foo");
    assert_eq!(inner_ident, None);
}

#[test]
fn test_parse_variable_idents_invalid_start_with_braces() {
    assert_eq!(parse_variable_idents("{1foo:bar}", 0), Err(ParseError::ExpectedIdentifier));
}

#[test]
fn test_parse_variable_idents_invalid_start_without_braces() {
    assert_eq!(parse_variable_idents("1foo", 0), Err(ParseError::ExpectedIdentifier));
}

#[test]
fn test_parse_ident_valid() {
    let (ident, _) = parse_ident("foo123_", 0).unwrap();
    assert_eq!(ident, "foo123_");
}

#[test]
fn test_parse_ident_start_with_underscore() {
    let (ident, _) = parse_ident("_foo", 0).unwrap();
    assert_eq!(ident, "_foo");
}

#[test]
fn test_parse_ident_start_with_number() {
    assert_eq!(parse_ident("1foo", 0), Err(ParseError::ExpectedIdentifier));
}

#[test]
fn test_parse_ident_start_with_special_char() {
    assert_eq!(parse_ident("@foo", 0), Err(ParseError::ExpectedIdentifier));
}

#[test]
fn test_parse_ident_stops_at_special_char() {
    let (ident, _) = parse_ident("foo@", 0).unwrap();
    assert_eq!(ident, "foo");
}

#[test]
fn test_parse_bound_ident_only_ident() {
    let ((ident, inner_ident), _) = parse_bound_ident("{foo}", 0).unwrap();
    assert_eq!(ident, "foo");
    assert_eq!(inner_ident, None);
}

#[test]
fn test_parse_bound_ident_with_inner_ident() {
    let ((ident, inner_ident), _) = parse_bound_ident("{foo:bar}", 0).unwrap();
    assert_eq!(ident, "foo");
    assert_eq!(inner_ident, Some("bar".to_string()));
}

#[test]
fn test_parse_bound_ident_with_invalid_char() {
    assert_eq!(parse_bound_ident("{foo|", 0), Err(ParseError::MalformedBinding));
}

#[test]
fn test_parse_bound_ident_missing_closing_brace() {
    assert_eq!(parse_bound_ident("{foo:bar", 0), Err(ParseError::ExpectedCloseBrace));
}

#[test]
fn test_parse_bound_ident_missing_opening_brace() {
    assert_eq!(parse_bound_ident("foo", 0), Err(ParseError::ExpectedBrace));
}
