use ext_format::ast::{ParseError, QuoteToken};
use ext_format::ext_format;
use ext_format::ext_format_unindented;
use ext_format::parse::parse;
use ext_format::render::{render, Env, RenderError, Value};
use ext_format::TemplateError;

fn scalar(text: &str) -> Value {
    Value::Scalar(text.to_string())
}

fn sequence(items: &[&str]) -> Value {
    Value::Sequence(items.iter().map(|x| scalar(x)).collect())
}

fn env1(name: &str, value: Value) -> Env {
    let mut env = Env::new();
    env.set(name.to_string(), value);
    env
}

#[test]
fn test_basic_interpolation() {
    let env = env1("name", scalar("Alice"));
    let output = ext_format("Hello, $name!", &env).unwrap();
    assert_eq!(output, "Hello, Alice!");
}

#[test]
fn test_binding_new_variable_names() {
    let env = env1("number", scalar("42"));
    let output = ext_format("Number: ${number:n} $n $n", &env).unwrap();
    assert_eq!(output, "Number: 42 42 42");
}

#[test]
fn test_basic_repetition() {
    let env = env1("numbers", sequence(&["1", "2", "3"]));
    let output = ext_format("Numbers: $($numbers),*", &env).unwrap();
    assert_eq!(output, "Numbers: 1,2,3");
}

#[test]
fn test_newline_as_separator() {
    let env = env1("items", sequence(&["apple", "banana", "cherry"]));
    let output = ext_format("Items:\n$($items)(\n)*", &env).unwrap();
    assert_eq!(output, "Items:\napple\nbanana\ncherry");
}

#[test]
fn test_repetition_with_hidden_variables() {
    let mut env = Env::new();
    env.set("items".to_string(), sequence(&["apple", "banana", "cherry"]));
    env.set("counter".to_string(), sequence(&["1", "2"]));
    let output = ext_format("Items:\n$(@counter $items)\n*", &env).unwrap();
    assert_eq!(output, "Items:\n apple\n banana");
}

#[test]
fn test_repetition_with_named_iteration_variables() {
    let env = env1("numbers", sequence(&["1", "2", "3"]));
    let output = ext_format("Numbers: $(@{numbers:number} $number),*", &env).unwrap();
    assert_eq!(output, "Numbers:  1, 2, 3");
}

#[test]
fn test_nested_repetitions() {
    let matrix = Value::Sequence(vec![
        sequence(&["1", "2", "3"]),
        sequence(&["4", "5", "6"]),
        sequence(&["7", "8", "9"]),
    ]);
    let env = env1("matrix", matrix);
    let output = ext_format("Matrix:\n$(@{matrix:row}$($row) *)(\n)*", &env).unwrap();
    assert_eq!(output, "Matrix:\n1 2 3\n4 5 6\n7 8 9");
}

#[test]
fn test_zipped_variables() {
    let mut env = Env::new();
    env.set("names".to_string(), sequence(&["Alice", "Bob"]));
    env.set("ages".to_string(), sequence(&["30", "40"]));
    let output = ext_format("Profiles:\n$($names $ages)\n*", &env).unwrap();
    assert_eq!(output, "Profiles:\nAlice 30\nBob 40");
}

#[test]
fn test_unindented_multiline_strings() {
    let matrix = Value::Sequence(vec![
        sequence(&["1", "2", "3"]),
        sequence(&["4", "5", "6"]),
        sequence(&["7", "8", "9"]),
    ]);
    let env = env1("matrix", matrix);
    let output = ext_format_unindented(
        r#"
            void func3() {
                $(@{matrix:inner_matrix}printf("$($inner_matrix) *");)(\n    )*
            }
        "#,
        &env,
    )
    .unwrap();
    assert_eq!(output, "\nvoid func3() {\n    printf(\"1 2 3\");\n    printf(\"4 5 6\");\n    printf(\"7 8 9\");\n}\n        ");
}

#[test]
fn test_plain_template_renders_to_itself() {
    let env = Env::new();
    let output = ext_format("just some text, (parens) and 1 + 2.", &env).unwrap();
    assert_eq!(output, "just some text, (parens) and 1 + 2.");
}

#[test]
fn test_empty_template() {
    let env = Env::new();
    assert_eq!(ext_format("", &env).unwrap(), "");
}

#[test]
fn test_decoded_escapes_render_verbatim() {
    let env = Env::new();
    let output = ext_format("a\\nb\\tc", &env).unwrap();
    assert_eq!(output, "a\nb\tc");
}

#[test]
fn test_zip_to_shortest_counts() {
    let mut env = Env::new();
    env.set("xs".to_string(), sequence(&["a", "b"]));
    env.set("ys".to_string(), sequence(&["1", "2", "3"]));
    let output = ext_format("$($xs$ys),*", &env).unwrap();
    assert_eq!(output, "a1,b2");
}

#[test]
fn test_separator_count_is_iterations_minus_one() {
    let env = env1("xs", sequence(&["a", "b", "c", "d"]));
    let output = ext_format("$($xs),*", &env).unwrap();
    assert_eq!(output, "a,b,c,d");
    assert_eq!(output.matches(',').count(), 3);
}

#[test]
fn test_separator_absent_for_single_iteration() {
    let env = env1("xs", sequence(&["a"]));
    let output = ext_format("$($xs),*", &env).unwrap();
    assert_eq!(output, "a");
}

#[test]
fn test_empty_lane_renders_nothing() {
    let env = env1("xs", sequence(&[]));
    let output = ext_format("A$($xs),*B", &env).unwrap();
    assert_eq!(output, "AB");
}

#[test]
fn test_empty_lane_in_nested_groups() {
    let matrix = Value::Sequence(vec![
        sequence(&[]),
        sequence(&["1"]),
        sequence(&[]),
    ]);
    let env = env1("m", matrix);
    let output = ext_format("$(@{m:r}[$($r),*])(;)*", &env).unwrap();
    assert_eq!(output, "[];[1];[]");
}

#[test]
fn test_deeply_nested_empty_lanes() {
    let inner = Value::Sequence(vec![Value::Sequence(vec![sequence(&[])])]);
    let env = env1("m", inner);
    let output = ext_format("<$(@{m:r}$(@{r:q}$($q)-*)+*)=*>", &env).unwrap();
    assert_eq!(output, "<>");
}

#[test]
fn test_hidden_variable_emits_nothing() {
    let mut env = Env::new();
    env.set("counter".to_string(), scalar("unseen"));
    let output = ext_format("A@counter B", &env).unwrap();
    assert_eq!(output, "A B");
}

#[test]
fn test_hidden_discard_alias() {
    let mut env = Env::new();
    env.set("c".to_string(), sequence(&["x", "y"]));
    env.set("v".to_string(), sequence(&["1", "2", "3"]));
    let output = ext_format("$(@{c:_}$v),*", &env).unwrap();
    assert_eq!(output, "1,2");
}

#[test]
fn test_shadowed_binding_restored_after_group() {
    let mut env = Env::new();
    env.set("x".to_string(), scalar("X"));
    env.set("ys".to_string(), sequence(&["a", "b"]));
    let output = ext_format("${x:n}|$(@{ys:n}$n)*|$n", &env).unwrap();
    assert_eq!(output, "X|ab|X");
}

#[test]
fn test_two_lane_zip_without_separator() {
    let mut env = Env::new();
    env.set("xs".to_string(), sequence(&["a", "b"]));
    env.set("ys".to_string(), sequence(&["1", "2", "3"]));
    let output = ext_format("$($xs $ys)*", &env).unwrap();
    assert_eq!(output, "a 1b 2");
}

#[test]
fn test_outer_alias_visible_in_nested_group() {
    let mut env = Env::new();
    env.set("a".to_string(), sequence(&["A1", "A2"]));
    env.set("x".to_string(), sequence(&["X1", "X2"]));
    let output = ext_format("$(@{a:b}$(@{x:a}$a)*)*", &env).unwrap();
    assert_eq!(output, "A1A1A2A2");
}

#[test]
fn test_conflicting_aliases_is_render_error() {
    let mut env = Env::new();
    env.set("x".to_string(), sequence(&["1"]));
    env.set("y".to_string(), sequence(&["2"]));
    assert_eq!(
        ext_format("$(${x:a} ${y:a}),*", &env),
        Err(TemplateError::Render(RenderError::ConflictingAliases))
    );
}

#[test]
fn test_same_lane_referenced_twice() {
    let env = env1("xs", sequence(&["a", "b"]));
    let output = ext_format("$($xs$xs),*", &env).unwrap();
    assert_eq!(output, "aa,bb");
}

#[test]
fn test_unterminated_group_is_parse_error() {
    let env = Env::new();
    assert_eq!(
        ext_format("$(unterminated", &env),
        Err(TemplateError::Parse(ParseError::UnterminatedGroup))
    );
}

#[test]
fn test_missing_separator_is_parse_error() {
    let env = Env::new();
    assert_eq!(
        ext_format("$($xs)", &env),
        Err(TemplateError::Parse(ParseError::MissingSeparator))
    );
}

#[test]
fn test_missing_star_is_parse_error() {
    let env = Env::new();
    assert_eq!(
        ext_format("$($xs);x", &env),
        Err(TemplateError::Parse(ParseError::ExpectedStar))
    );
}

#[test]
fn test_invalid_identifier_is_parse_error() {
    let env = Env::new();
    assert_eq!(
        ext_format("$1foo", &env),
        Err(TemplateError::Parse(ParseError::ExpectedIdentifier))
    );
}

#[test]
fn test_lone_dollar_is_parse_error() {
    let env = Env::new();
    assert_eq!(
        ext_format("$", &env),
        Err(TemplateError::Parse(ParseError::UnexpectedEnd))
    );
}

#[test]
fn test_malformed_brace_binding_is_parse_error() {
    let env = Env::new();
    assert_eq!(
        ext_format("${foo|bar}", &env),
        Err(TemplateError::Parse(ParseError::MalformedBinding))
    );
}

#[test]
fn test_unclosed_brace_binding_is_parse_error() {
    let env = Env::new();
    assert_eq!(
        ext_format("${a:b", &env),
        Err(TemplateError::Parse(ParseError::ExpectedCloseBrace))
    );
}

#[test]
fn test_too_deep_nesting_is_parse_error() {
    let mut template = String::new();
    for _ in 0..70 {
        template.push_str("$(");
    }
    let env = Env::new();
    assert_eq!(
        ext_format(&template, &env),
        Err(TemplateError::Parse(ParseError::TooDeeplyNested))
    );
}

#[test]
fn test_missing_binding_is_render_error() {
    let env = Env::new();
    assert_eq!(
        ext_format("$name", &env),
        Err(TemplateError::Render(RenderError::MissingBinding))
    );
}

#[test]
fn test_sequence_where_scalar_needed_is_render_error() {
    let env = env1("x", sequence(&["a"]));
    assert_eq!(
        ext_format("$x", &env),
        Err(TemplateError::Render(RenderError::ExpectedScalar))
    );
}

#[test]
fn test_scalar_where_sequence_needed_is_render_error() {
    let env = env1("x", scalar("a"));
    assert_eq!(
        ext_format("$($x),*", &env),
        Err(TemplateError::Render(RenderError::ExpectedSequence))
    );
}

#[test]
fn test_group_without_variables_is_render_error() {
    let env = Env::new();
    assert_eq!(
        ext_format("$(literal)*", &env),
        Err(TemplateError::Render(RenderError::GroupWithoutVariables))
    );
}

#[test]
fn test_render_rejects_overly_deep_tree() {
    let mut node = QuoteToken::Literal("x".to_string());
    for _ in 0..70 {
        node = QuoteToken::Group(
            vec![QuoteToken::HiddenVariable("c".to_string(), None), node],
            None,
        );
    }
    let mut env = Env::new();
    env.set("c".to_string(), Value::Sequence(vec![Value::Scalar("x".to_string())]));
    assert_eq!(render(&vec![node], &env), Err(RenderError::TooDeeplyNested));
}

#[test]
fn test_parse_then_render_pipeline() {
    let tokens = parse("Hello, $name!").unwrap();
    let env = env1("name", scalar("World"));
    assert_eq!(render(&tokens, &env).unwrap(), "Hello, World!");
}
