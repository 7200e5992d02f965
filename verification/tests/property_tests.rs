use json_fmt::error::JsonError;
use json_fmt::format::FormatOptions;
use json_fmt::format::Formatter;
use json_fmt::node::Parser;

fn format_with(input: &str, options: Option<FormatOptions>) -> Result<String, JsonError> {
    let mut formatter = Formatter::new(options);
    formatter.format(input)
}

#[test]
fn round_trip_is_stable() {
    let inputs = vec![
        "{  \"a\" : [1, 2 ,3], \"b\": {\"c\": null} }",
        "[true, false, null, 1.50, \"x\"]",
        "{}",
        "[[],[{}]]",
    ];
    for input in inputs {
        let once = format_with(input, None).unwrap();
        let twice = format_with(&once, None).unwrap();
        assert_eq!(once, twice);
    }
}

#[test]
fn round_trip_is_stable_with_trailing_commas() {
    let options = FormatOptions {
        trailing_commas: true,
        ..Default::default()
    };
    let input = "{\"a\": [1, 2], \"b\": {}}";
    let once = format_with(input, Some(options)).unwrap();
    let twice = format_with(&once, Some(options)).unwrap();
    assert_eq!(once, twice);
}

#[test]
fn formatting_preserves_the_tree() {
    let inputs = vec![
        "{  \"a\" : [1, 2 ,3], \"b\": {\"c\": null} }",
        "[true, false, null, 1.50, \"x\"]",
    ];
    for input in inputs {
        let out = format_with(input, None).unwrap();
        let tree_before = Parser::new(input).unwrap().parse().unwrap();
        let tree_after = Parser::new(&out).unwrap().parse().unwrap();
        assert_eq!(tree_before, tree_after);
    }
}

#[test]
fn member_order_is_preserved() {
    let out = format_with(r#"{"b": 1, "a": 2, "c": 3}"#, None).unwrap();
    assert_eq!(out, "{\n    \"b\": 1,\n    \"a\": 2,\n    \"c\": 3\n}");
}

#[test]
fn element_order_is_preserved() {
    let out = format_with(r#"[3, 1, 2]"#, None).unwrap();
    assert_eq!(out, "[\n    3,\n    1,\n    2\n]");
}

#[test]
fn trailing_commas_add_one_comma_per_nonempty_container() {
    let options = FormatOptions {
        trailing_commas: true,
        ..Default::default()
    };
    // three nonempty containers: the object, the array, the inner object
    let input = r#"{"a": [1, 2], "b": {"c": 3}, "d": {}}"#;
    let plain = format_with(input, None).unwrap();
    let with_commas = format_with(input, Some(options)).unwrap();
    let count = |s: &str| s.chars().filter(|c| *c == ',').count();
    assert_eq!(count(&with_commas), count(&plain) + 3);
}

#[test]
fn trailing_commas_leave_empty_containers_alone() {
    let options = FormatOptions {
        trailing_commas: true,
        ..Default::default()
    };
    assert_eq!(format_with("{}", Some(options)).unwrap(), "{\n}");
    assert_eq!(format_with("[]", Some(options)).unwrap(), "[\n]");
}

#[test]
fn empty_object_formats_as_brace_newline_brace() {
    assert_eq!(format_with("{}", None).unwrap(), "{\n}");
}

#[test]
fn empty_array_formats_symmetrically() {
    assert_eq!(format_with("[]", None).unwrap(), "[\n]");
}

#[test]
fn scenario_simple_object() {
    assert_eq!(
        format_with(r#"{"hello": "world"}"#, None).unwrap(),
        "{\n    \"hello\": \"world\"\n}"
    );
}

#[test]
fn scenario_simple_array() {
    assert_eq!(
        format_with("[1, 2, 3]", None).unwrap(),
        "[\n    1,\n    2,\n    3\n]"
    );
}

#[test]
fn scenario_trailing_commas() {
    let options = FormatOptions {
        trailing_commas: true,
        ..Default::default()
    };
    assert_eq!(
        format_with("[1, 2]", Some(options)).unwrap(),
        "[\n    1,\n    2,\n]"
    );
}

#[test]
fn scenario_two_space_indent() {
    let options = FormatOptions {
        spaces: 2,
        ..Default::default()
    };
    assert_eq!(
        format_with(r#"{"a": {"b": 1}}"#, Some(options)).unwrap(),
        "{\n  \"a\": {\n    \"b\": 1\n  }\n}"
    );
}

#[test]
fn scenario_tab_indent() {
    let options = FormatOptions {
        use_tabs: true,
        ..Default::default()
    };
    assert_eq!(
        format_with(r#"{"a": [1]}"#, Some(options)).unwrap(),
        "{\n\t\"a\": [\n\t\t1\n\t]\n}"
    );
}

#[test]
fn scenario_scalar_at_root_fails() {
    assert_eq!(format_with("123", None), Err(JsonError::UnexpectedToken));
}

#[test]
fn scenario_missing_close_fails() {
    assert_eq!(
        format_with(r#"{"a": 1"#, None),
        Err(JsonError::UnexpectedToken)
    );
}

#[test]
fn format_reports_tokenizer_errors() {
    assert_eq!(format_with("@", None), Err(JsonError::UnexpectedCharacter));
    assert_eq!(
        format_with("[frue]", None),
        Err(JsonError::UnrecognizedKeyword)
    );
    assert_eq!(
        format_with("[1..2]", None),
        Err(JsonError::MalformedNumber)
    );
    assert_eq!(
        format_with("\"open", None),
        Err(JsonError::UnterminatedInput)
    );
}

#[test]
fn format_canonicalizes_number_text() {
    assert_eq!(
        format_with("[1.50, 007, 0.0]", None).unwrap(),
        "[\n    1.5,\n    7,\n    0\n]"
    );
}

#[test]
fn string_content_is_echoed_verbatim() {
    // no escape processing: the backslash is an ordinary character
    let out = format_with("{\"a\": \"x\\y,{}\"}", None).unwrap();
    assert_eq!(out, "{\n    \"a\": \"x\\y,{}\"\n}");
}
