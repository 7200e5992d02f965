use json_fmt::format::FormatOptions;
use json_fmt::format::Formatter;
use json_fmt::node::SyntaxKind;

#[test]
fn test_indent_string() {
    let cases = vec![
        (None, "    "),
        (
            Some(FormatOptions {
                spaces: 2,
                ..Default::default()
            }),
            "  ",
        ),
        (
            Some(FormatOptions {
                use_tabs: true,
                ..Default::default()
            }),
            "\t",
        ),
        (
            Some(FormatOptions {
                spaces: 2,
                use_tabs: true,
                ..Default::default()
            }),
            "\t",
        ),
    ];

    for (options, expected) in cases {
        let mut formatter = Formatter::new(options);
        formatter.up_indent();
        assert_eq!(formatter.indent_string(), expected);
    }
}

#[test]
fn test_format_primitive() {
    let cases = vec![
        (
            SyntaxKind::StringLiteral("hello".to_string()),
            "\"hello\"".to_string(),
        ),
        (
            SyntaxKind::NumberLiteral("42".to_string()),
            "42".to_string(),
        ),
        (SyntaxKind::TrueKeyword, "true".to_string()),
        (SyntaxKind::FalseKeyword, "false".to_string()),
        (SyntaxKind::NullKeyword, "null".to_string()),
    ];

    for (node, expected) in cases {
        let formatter = Formatter::new(None);
        assert_eq!(formatter.format_primitive(&node), expected);
    }
}

#[test]
fn test_format_array() {
    let cases = vec![
        (
            SyntaxKind::ArrayLiteralExpression(vec![
                SyntaxKind::NumberLiteral("1".to_string()),
                SyntaxKind::NumberLiteral("2".to_string()),
            ]),
            "[\n    1,\n    2\n]".to_string(),
            "[\n    1,\n    2,\n]".to_string(),
        ),
        (
            SyntaxKind::ArrayLiteralExpression(vec![
                SyntaxKind::ArrayLiteralExpression(vec![SyntaxKind::NumberLiteral(
                    "1".to_string(),
                )]),
                SyntaxKind::ArrayLiteralExpression(vec![SyntaxKind::NumberLiteral(
                    "2".to_string(),
                )]),
            ]),
            "[\n    [\n        1\n    ],\n    [\n        2\n    ]\n]".to_string(),
            "[\n    [\n        1,\n    ],\n    [\n        2,\n    ],\n]".to_string(),
        ),
    ];

    for (node, expected, expected_with_trailing_commas) in cases {
        let mut formatter = Formatter::new(None);
        assert_eq!(formatter.format_array(&node), expected);
        formatter.options.trailing_commas = true;
        assert_eq!(formatter.format_array(&node), expected_with_trailing_commas);
    }
}

#[test]
fn test_format_object() {
    let cases = vec![
        (
            SyntaxKind::ObjectLiteralExpression(vec![SyntaxKind::PropertyAssignment(
                "hello".to_string(),
                Box::new(SyntaxKind::StringLiteral("world".to_string())),
            )]),
            "{\n    \"hello\": \"world\"\n}".to_string(),
            "{\n    \"hello\": \"world\",\n}".to_string(),
        ),
        (
            SyntaxKind::ObjectLiteralExpression(vec![
                SyntaxKind::PropertyAssignment(
                    "hello".to_string(),
                    Box::new(SyntaxKind::ObjectLiteralExpression(vec![
                        SyntaxKind::PropertyAssignment(
                            "foo".to_string(),
                            Box::new(SyntaxKind::NumberLiteral("42".to_string())),
                        ),
                    ])),
                ),
                SyntaxKind::PropertyAssignment(
                    "world".to_string(),
                    Box::new(SyntaxKind::ObjectLiteralExpression(vec![
                        SyntaxKind::PropertyAssignment(
                            "bar".to_string(),
                            Box::new(SyntaxKind::NumberLiteral("42".to_string())),
                        ),
                    ])),
                ),
            ]),
            "{\n    \"hello\": {\n        \"foo\": 42\n    },\n    \"world\": {\n        \"bar\": 42\n    }\n}".to_string(),
            "{\n    \"hello\": {\n        \"foo\": 42,\n    },\n    \"world\": {\n        \"bar\": 42,\n    },\n}".to_string(),
        ),
    ];

    for (node, expected, expected_with_trailing_commas) in cases {
        let mut formatter = Formatter::new(None);
        assert_eq!(formatter.format_object(&node), expected);
        formatter.options.trailing_commas = true;
        assert_eq!(formatter.format_object(&node), expected_with_trailing_commas);
    }
}

#[test]
fn test_format_node() {
    let cases = vec![
        (
            SyntaxKind::ArrayLiteralExpression(vec![
                SyntaxKind::StringLiteral("hello".to_string()),
                SyntaxKind::NumberLiteral("42".to_string()),
            ]),
            "[\n    \"hello\",\n    42\n]".to_string(),
        ),
        (
            SyntaxKind::ObjectLiteralExpression(vec![
                SyntaxKind::PropertyAssignment(
                    "hello".to_string(),
                    Box::new(SyntaxKind::ObjectLiteralExpression(vec![
                        SyntaxKind::PropertyAssignment(
                            "foo".to_string(),
                            Box::new(SyntaxKind::NumberLiteral("42".to_string())),
                        ),
                    ])),
                ),
                SyntaxKind::PropertyAssignment(
                    "world".to_string(),
                    Box::new(SyntaxKind::ArrayLiteralExpression(vec![
                        SyntaxKind::StringLiteral("bar".to_string()),
                        SyntaxKind::NumberLiteral("42".to_string()),
                    ])),
                ),
            ]),
            "{\n    \"hello\": {\n        \"foo\": 42\n    },\n    \"world\": [\n        \"bar\",\n        42\n    ]\n}".to_string(),
        ),
    ];

    for (node, expected) in cases {
        let mut formatter = Formatter::new(None);
        assert_eq!(formatter.format_node(&node), expected);
    }
}

#[test]
fn test_format() {
    let cases = vec![
        (
            r#"{"hello": "world"}"#,
            "{\n    \"hello\": \"world\"\n}".to_string(),
        ),
        (r#"[1, 2, 3]"#, "[\n    1,\n    2,\n    3\n]".to_string()),
        (
            r#"{"hello": {"foo": 42}, "world": ["bar", 42]}"#,
            "{\n    \"hello\": {\n        \"foo\": 42\n    },\n    \"world\": [\n        \"bar\",\n        42\n    ]\n}".to_string(),
        ),
        (
            r#"[{"hello": "world"}, {"foo": "bar"}]"#,
            "[\n    {\n        \"hello\": \"world\"\n    },\n    {\n        \"foo\": \"bar\"\n    }\n]".to_string(),
        ),
    ];

    for (input, expected) in cases {
        let mut formatter = Formatter::new(None);
        assert_eq!(formatter.format(input), Ok(expected));
    }
}
