use json_fmt::error::JsonError;
use json_fmt::node::Parser;
use json_fmt::node::SyntaxKind;
use json_fmt::token::Token;

#[test]
fn test_parse_string() {
    let mut parser = Parser::new(r#""hello""#).unwrap();
    assert_eq!(
        parser.next_token(),
        Some(Token::StringValue("hello".to_string()))
    );
}

#[test]
fn test_parse_number() {
    let mut parser = Parser::new("123").unwrap();
    assert_eq!(parser.next_token(), Some(Token::NumberValue("123".to_string())));
}

#[test]
fn test_parse_keyword() {
    let cases = vec![
        ("true", Token::BooleanValue(true)),
        ("false", Token::BooleanValue(false)),
        ("null", Token::NullValue),
    ];

    for (input, expected) in cases {
        let mut parser = Parser::new(input).unwrap();
        assert_eq!(parser.next_token(), Some(expected));
    }
}

#[test]
fn test_parse_property_assignment() {
    let mut parser = Parser::new(r#""hello": 123"#).unwrap();
    assert_eq!(
        parser.next_token(),
        Some(Token::StringValue("hello".to_string()))
    );
    assert_eq!(parser.next_token(), Some(Token::Colon));
    assert_eq!(parser.next_token(), Some(Token::NumberValue("123".to_string())));
}

#[test]
fn test_parse_object() {
    let mut parser = Parser::new(r#"{"hello": 123}"#).unwrap();
    assert_eq!(parser.next_token(), Some(Token::LBrace));
    assert_eq!(
        parser.next_token(),
        Some(Token::StringValue("hello".to_string()))
    );
    assert_eq!(parser.next_token(), Some(Token::Colon));
    assert_eq!(parser.next_token(), Some(Token::NumberValue("123".to_string())));
    assert_eq!(parser.next_token(), Some(Token::RBrace));
}

#[test]
fn test_parse_array() {
    let mut parser = Parser::new(r#"[1, 2, 3]"#).unwrap();
    assert_eq!(parser.next_token(), Some(Token::LBracket));
    assert_eq!(parser.next_token(), Some(Token::NumberValue("1".to_string())));
    assert_eq!(parser.next_token(), Some(Token::Comma));
    assert_eq!(parser.next_token(), Some(Token::NumberValue("2".to_string())));
    assert_eq!(parser.next_token(), Some(Token::Comma));
    assert_eq!(parser.next_token(), Some(Token::NumberValue("3".to_string())));
    assert_eq!(parser.next_token(), Some(Token::RBracket));
}

#[test]
fn test_parse_value() {
    let cases = vec![
        ("123", SyntaxKind::NumberLiteral("123".to_string())),
        (r#""hello""#, SyntaxKind::StringLiteral("hello".to_string())),
        ("true", SyntaxKind::TrueKeyword),
        ("false", SyntaxKind::FalseKeyword),
        ("null", SyntaxKind::NullKeyword),
        (
            r#"{"hello": 123}"#,
            SyntaxKind::ObjectLiteralExpression(vec![SyntaxKind::PropertyAssignment(
                "hello".to_string(),
                Box::new(SyntaxKind::NumberLiteral("123".to_string())),
            )]),
        ),
        (
            r#"[1, 2, 3]"#,
            SyntaxKind::ArrayLiteralExpression(vec![
                SyntaxKind::NumberLiteral("1".to_string()),
                SyntaxKind::NumberLiteral("2".to_string()),
                SyntaxKind::NumberLiteral("3".to_string()),
            ]),
        ),
    ];

    for (input, expected) in cases {
        let mut parser = Parser::new(input).unwrap();
        assert_eq!(parser.parse_value(), Ok(expected));
    }
}

#[test]
fn node_test_parse() {
    let cases = vec![
        (
            r#"{"hello": 123}"#,
            SyntaxKind::ObjectLiteralExpression(vec![SyntaxKind::PropertyAssignment(
                "hello".to_string(),
                Box::new(SyntaxKind::NumberLiteral("123".to_string())),
            )]),
        ),
        (
            r#"[1, 2, 3]"#,
            SyntaxKind::ArrayLiteralExpression(vec![
                SyntaxKind::NumberLiteral("1".to_string()),
                SyntaxKind::NumberLiteral("2".to_string()),
                SyntaxKind::NumberLiteral("3".to_string()),
            ]),
        ),
        (
            r#"{"hello": [1, 2, 3]}"#,
            SyntaxKind::ObjectLiteralExpression(vec![SyntaxKind::PropertyAssignment(
                "hello".to_string(),
                Box::new(SyntaxKind::ArrayLiteralExpression(vec![
                    SyntaxKind::NumberLiteral("1".to_string()),
                    SyntaxKind::NumberLiteral("2".to_string()),
                    SyntaxKind::NumberLiteral("3".to_string()),
                ])),
            )]),
        ),
    ];

    for (input, expected) in cases {
        let mut parser = Parser::new(input).unwrap();
        assert_eq!(parser.parse(), Ok(expected));
    }
}

#[test]
fn parse_rejects_scalar_at_root() {
    let mut parser = Parser::new("123").unwrap();
    assert_eq!(parser.parse(), Err(JsonError::UnexpectedToken));
}

#[test]
fn parse_rejects_missing_close() {
    let mut parser = Parser::new(r#"{"a": 1"#).unwrap();
    assert_eq!(parser.parse(), Err(JsonError::UnexpectedToken));
}

#[test]
fn parse_value_rejects_empty_input() {
    let mut parser = Parser::new("").unwrap();
    assert_eq!(parser.parse_value(), Err(JsonError::UnexpectedToken));
}

#[test]
fn parse_accepts_separator_in_place_of_colon() {
    // the separator after a property key is consumed without being checked
    let mut parser = Parser::new(r#"{"a" , 1}"#).unwrap();
    assert_eq!(
        parser.parse(),
        Ok(SyntaxKind::ObjectLiteralExpression(vec![
            SyntaxKind::PropertyAssignment(
                "a".to_string(),
                Box::new(SyntaxKind::NumberLiteral("1".to_string())),
            )
        ]))
    );
}

#[test]
fn parse_keeps_member_order() {
    let mut parser = Parser::new(r#"{"b": 1, "a": 2}"#).unwrap();
    assert_eq!(
        parser.parse(),
        Ok(SyntaxKind::ObjectLiteralExpression(vec![
            SyntaxKind::PropertyAssignment(
                "b".to_string(),
                Box::new(SyntaxKind::NumberLiteral("1".to_string())),
            ),
            SyntaxKind::PropertyAssignment(
                "a".to_string(),
                Box::new(SyntaxKind::NumberLiteral("2".to_string())),
            ),
        ]))
    );
}
