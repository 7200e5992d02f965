use json_fmt::error::JsonError;
use json_fmt::token::Token;
use json_fmt::token::Tokenizer;

#[test]
fn test_peek_char() {
    let input = r#"{"foo":123}"#;
    let tokenizer = Tokenizer::new(input);
    assert_eq!(tokenizer.peek_char(), Some('{'));
    assert_eq!(tokenizer.peek_char(), Some('{'));
}

#[test]
fn test_next_char() {
    let input = r#"{"foo":123}"#;
    let mut tokenizer = Tokenizer::new(input);
    assert_eq!(tokenizer.next_char(), Some('{'));
    assert_eq!(tokenizer.next_char(), Some('"'));
    assert_eq!(tokenizer.next_char(), Some('f'));
    assert_eq!(tokenizer.next_char(), Some('o'));
    assert_eq!(tokenizer.next_char(), Some('o'));
    assert_eq!(tokenizer.next_char(), Some('"'));
    assert_eq!(tokenizer.next_char(), Some(':'));
    assert_eq!(tokenizer.next_char(), Some('1'));
    assert_eq!(tokenizer.next_char(), Some('2'));
    assert_eq!(tokenizer.next_char(), Some('3'));
    assert_eq!(tokenizer.next_char(), Some('}'));
    assert_eq!(tokenizer.next_char(), None);
}

#[test]
fn token_test_consume_char() {
    let input = r#"{}[]:,"#;
    let mut tokenizer = Tokenizer::new(input);
    assert_eq!(tokenizer.consume_char(), Ok(Token::LBrace)); // {
    assert_eq!(tokenizer.consume_char(), Ok(Token::RBrace)); // }
    assert_eq!(tokenizer.consume_char(), Ok(Token::LBracket)); // [
    assert_eq!(tokenizer.consume_char(), Ok(Token::RBracket)); // ]
    assert_eq!(tokenizer.consume_char(), Ok(Token::Colon)); // :
    assert_eq!(tokenizer.consume_char(), Ok(Token::Comma)); // ,
}

#[test]
fn token_test_consume_string() {
    let input = r#"{"foo":"bar"}"#;
    let mut tokenizer = Tokenizer::new(input);
    assert_eq!(tokenizer.consume_char(), Ok(Token::LBrace)); // {
    assert_eq!(
        tokenizer.consume_string(),
        Ok(Token::StringValue("foo".to_string()))
    ); // "foo"
    assert_eq!(tokenizer.consume_char(), Ok(Token::Colon)); // :
    assert_eq!(
        tokenizer.consume_string(),
        Ok(Token::StringValue("bar".to_string()))
    ); // "bar"
    assert_eq!(tokenizer.consume_char(), Ok(Token::RBrace)); // }
}

#[test]
fn token_test_consume_number() {
    let input = r#"{"foo":123}"#;
    let mut tokenizer = Tokenizer::new(input);
    assert_eq!(tokenizer.consume_char(), Ok(Token::LBrace)); // {
    assert_eq!(
        tokenizer.consume_string(),
        Ok(Token::StringValue("foo".to_string()))
    ); // "foo"
    assert_eq!(tokenizer.consume_char(), Ok(Token::Colon)); // :
    assert_eq!(
        tokenizer.consume_number(),
        Ok(Token::NumberValue("123".to_string()))
    ); // 123
    assert_eq!(tokenizer.consume_char(), Ok(Token::RBrace)); // }
}

#[test]
fn token_test_consume_keyword() {
    let input = r#"{"foo":true,"bar":false,"baz":null}"#;
    let mut tokenizer = Tokenizer::new(input);
    assert_eq!(tokenizer.consume_char(), Ok(Token::LBrace)); // {
    assert_eq!(
        tokenizer.consume_string(),
        Ok(Token::StringValue("foo".to_string()))
    ); // "foo"
    assert_eq!(tokenizer.consume_char(), Ok(Token::Colon)); // :
    assert_eq!(tokenizer.consume_keyword(), Ok(Token::BooleanValue(true))); // true
    assert_eq!(tokenizer.consume_char(), Ok(Token::Comma)); // ,
    assert_eq!(
        tokenizer.consume_string(),
        Ok(Token::StringValue("bar".to_string()))
    ); // "bar"
    assert_eq!(tokenizer.consume_char(), Ok(Token::Colon)); // :
    assert_eq!(tokenizer.consume_keyword(), Ok(Token::BooleanValue(false))); // false
    assert_eq!(tokenizer.consume_char(), Ok(Token::Comma)); // ,
    assert_eq!(
        tokenizer.consume_string(),
        Ok(Token::StringValue("baz".to_string()))
    ); // "baz"
    assert_eq!(tokenizer.consume_char(), Ok(Token::Colon)); // :
    assert_eq!(tokenizer.consume_keyword(), Ok(Token::NullValue)); // null
    assert_eq!(tokenizer.consume_char(), Ok(Token::RBrace)); // }
}

#[test]
fn token_test_consume_whitespace() {
    let input = "{    \"foo\": 123\n        }";
    let mut tokenizer = Tokenizer::new(input);
    assert_eq!(tokenizer.consume_char(), Ok(Token::LBrace)); // {
    tokenizer.consume_whitespace(); // tab whitespace
    assert_eq!(
        tokenizer.consume_string(),
        Ok(Token::StringValue("foo".to_string()))
    ); // "foo"
    assert_eq!(tokenizer.consume_char(), Ok(Token::Colon)); // :
    tokenizer.consume_whitespace(); // space whitespace
    assert_eq!(
        tokenizer.consume_number(),
        Ok(Token::NumberValue("123".to_string()))
    ); // 123
    tokenizer.consume_whitespace(); // new line whitespace
    assert_eq!(tokenizer.consume_char(), Ok(Token::RBrace)); // }
}

#[test]
fn token_test_next_token() {
    let input = r#"{"foo":123}"#;
    let mut tokenizer = Tokenizer::new(input);
    assert_eq!(tokenizer.next_token(), Ok(Token::LBrace)); // {
    assert_eq!(
        tokenizer.next_token(),
        Ok(Token::StringValue("foo".to_string()))
    ); // "foo"
    assert_eq!(tokenizer.next_token(), Ok(Token::Colon)); // :
    assert_eq!(
        tokenizer.next_token(),
        Ok(Token::NumberValue("123".to_string()))
    ); // 123
    assert_eq!(tokenizer.next_token(), Ok(Token::RBrace)); // }
    assert_eq!(tokenizer.next_token(), Ok(Token::End)); // end
}

#[test]
fn token_test_tokenize() {
    let input = r#"{"foo":123}"#;
    let mut tokenizer = Tokenizer::new(input);
    let tests: Vec<Token> = vec![
        Token::LBrace,                         // {
        Token::StringValue("foo".to_string()), // "foo"
        Token::Colon,                          // :
        Token::NumberValue("123".to_string()), // 123
        Token::RBrace,                         // }
        Token::End,                            // end
    ];

    for test in tests {
        assert_eq!(tokenizer.next_token(), Ok(test));
    }
}

#[test]
fn tokenize_collects_all_tokens() {
    let input = r#"{"foo":123}"#;
    let mut tokenizer = Tokenizer::new(input);
    let tokens = tokenizer.tokenize().unwrap();
    assert_eq!(
        tokens,
        vec![
            Token::LBrace,
            Token::StringValue("foo".to_string()),
            Token::Colon,
            Token::NumberValue("123".to_string()),
            Token::RBrace,
            Token::End,
        ]
    );
}

#[test]
fn tokenize_reports_unexpected_character() {
    let mut tokenizer = Tokenizer::new("{@}");
    assert_eq!(tokenizer.tokenize(), Err(JsonError::UnexpectedCharacter));
}

#[test]
fn tokenize_reports_unrecognized_keyword() {
    let mut tokenizer = Tokenizer::new("[truth]");
    assert_eq!(tokenizer.tokenize(), Err(JsonError::UnrecognizedKeyword));
}

#[test]
fn tokenize_reports_malformed_number() {
    let mut tokenizer = Tokenizer::new("[1.2.3]");
    assert_eq!(tokenizer.tokenize(), Err(JsonError::MalformedNumber));
    let mut trailing_dot = Tokenizer::new("[5.]");
    assert_eq!(trailing_dot.tokenize(), Err(JsonError::MalformedNumber));
}

#[test]
fn tokenize_reports_unterminated_input() {
    let mut tokenizer = Tokenizer::new("\"abc");
    assert_eq!(tokenizer.tokenize(), Err(JsonError::UnterminatedInput));
}

#[test]
fn tokenize_canonicalizes_numbers() {
    let mut tokenizer = Tokenizer::new("[1.50, 007, 0.0]");
    let tokens = tokenizer.tokenize().unwrap();
    assert_eq!(
        tokens,
        vec![
            Token::LBracket,
            Token::NumberValue("1.5".to_string()),
            Token::Comma,
            Token::NumberValue("7".to_string()),
            Token::Comma,
            Token::NumberValue("0".to_string()),
            Token::RBracket,
            Token::End,
        ]
    );
}

#[test]
fn consume_number_accepts_leading_dot() {
    // a bare dot never reaches the number scanner through next_token, but
    // consume_number itself accepts a fraction-only numeral
    let mut tokenizer = Tokenizer::new(".5");
    assert_eq!(
        tokenizer.consume_number(),
        Ok(Token::NumberValue("0.5".to_string()))
    );
}

#[test]
fn next_token_rejects_leading_dot() {
    let mut tokenizer = Tokenizer::new(".5");
    assert_eq!(tokenizer.next_token(), Err(JsonError::UnexpectedCharacter));
}
