use json_parser::{Error, Token, TokenKind, Tokenizer};

fn number_of(t: &Token) -> f64 {
    match t {
        Token::NumberValue(n) => n.to_u64().expect("number fits in u64") as f64,
        other => panic!("not a number token: {:?}", other),
    }
}

#[test]
fn test_string_token() {
    let mut tokenizer = Tokenizer::new(r#""hello""#);
    let result = tokenizer.string_token();
    assert_eq!(result.unwrap(), Token::StringValue("hello".into()));
}

#[test]
fn test_number_token() {
    let mut tokenizer = Tokenizer::new(r#"123"#);
    let result = tokenizer.number_token();
    assert_eq!(number_of(&result.unwrap()), 123.0);
}

#[test]
fn test_true_token() {
    let mut tokenizer = Tokenizer::new(r#"true"#);
    let result = tokenizer.keyword_token();
    assert_eq!(result.unwrap(), Token::BoolValue(true));
}

#[test]
fn test_false_token() {
    let mut tokenizer = Tokenizer::new(r#"false"#);
    let result = tokenizer.keyword_token();
    assert_eq!(result.unwrap(), Token::BoolValue(false));
}

#[test]
fn test_null_token() {
    let mut tokenizer = Tokenizer::new(r#"null"#);
    let result = tokenizer.keyword_token();
    assert_eq!(result.unwrap(), Token::NullValue);
}

#[test]
fn test_tokenize_token() {
    let mut tokenizer =
        Tokenizer::new(r#"{"str": "hello", "num": 123, "array":[true, false, null]}"#);
    let result = tokenizer.tokenize().unwrap();
    assert_eq!(result.len(), 19);
    assert_eq!(number_of(&result[7]), 123.0);
    let expected_before = [
        Token::CurlyOpen,
        Token::StringValue("str".into()),
        Token::Colon,
        Token::StringValue("hello".into()),
        Token::Coma,
        Token::StringValue("num".into()),
        Token::Colon,
    ];
    let expected_after = [
        Token::Coma,
        Token::StringValue("array".into()),
        Token::Colon,
        Token::SquareOpen,
        Token::BoolValue(true),
        Token::Coma,
        Token::BoolValue(false),
        Token::Coma,
        Token::NullValue,
        Token::SquareClose,
        Token::CurlyClose,
    ];
    assert_eq!(&result[..7], &expected_before[..]);
    assert_eq!(&result[8..], &expected_after[..]);
}

#[test]
fn literal_words_are_single_tokens() {
    for (word, token) in [
        ("null", Token::NullValue),
        ("true", Token::BoolValue(true)),
        ("false", Token::BoolValue(false)),
    ] {
        let tokens = Tokenizer::new(word).tokenize().unwrap();
        assert_eq!(tokens, vec![token]);
    }
}

#[test]
fn unterminated_string_fails() {
    let result = Tokenizer::new("\"abc").tokenize();
    assert_eq!(result, Err(Error::Unterminated));
}

#[test]
fn unknown_word_is_named() {
    let result = Tokenizer::new("xyz").tokenize();
    assert_eq!(result, Err(Error::UnknownKeyword("xyz".to_string())));
}

#[test]
fn tab_is_not_whitespace() {
    let result = Tokenizer::new("\t1").tokenize();
    assert_eq!(result, Err(Error::UnknownKeyword(String::new())));
}

#[test]
fn digits_stop_at_a_letter() {
    let tokens = Tokenizer::new("12ab").tokenize();
    assert_eq!(tokens, Err(Error::UnknownKeyword("ab".to_string())));
    let tokens = Tokenizer::new("12 true").tokenize().unwrap();
    assert_eq!(tokens.len(), 2);
    assert_eq!(number_of(&tokens[0]), 12.0);
    assert_eq!(tokens[1], Token::BoolValue(true));
}

#[test]
fn number_token_without_digit_is_invalid() {
    let mut tokenizer = Tokenizer::new("abc");
    assert_eq!(tokenizer.number_token(), Err(Error::InvalidNumber));
}

#[test]
fn string_token_requires_a_quote() {
    let mut tokenizer = Tokenizer::new("abc");
    assert_eq!(tokenizer.string_token(), Err(Error::Expected('"')));
}

#[test]
fn skip_reports_the_expected_character() {
    let mut tokenizer = Tokenizer::new("a");
    assert_eq!(tokenizer.skip('b'), Err(Error::Expected('b')));
    let mut tokenizer = Tokenizer::new("b");
    assert_eq!(tokenizer.skip('b'), Ok(()));
}

#[test]
fn take_while_and_take_until() {
    let mut tokenizer = Tokenizer::new("ab1;cd");
    let run = tokenizer.take_while(|c| c.is_ascii_alphabetic()).unwrap();
    assert_eq!(run, vec!['a', 'b']);
    let upto = tokenizer.take_until(|c| c == ';').unwrap();
    assert_eq!(upto, vec!['1']);
    assert_eq!(tokenizer.take_until(|c| c == ';'), Err(Error::Unterminated));
}

#[test]
fn string_keeps_backslashes_and_non_ascii() {
    let tokens = Tokenizer::new(r#""a\nb é""#).tokenize().unwrap();
    assert_eq!(tokens, vec![Token::StringValue("a\\nb é".to_string())]);
}

#[test]
fn large_number_does_not_fit_u64() {
    let tokens = Tokenizer::new("18446744073709551616").tokenize().unwrap();
    match &tokens[0] {
        Token::NumberValue(n) => assert_eq!(n.to_u64(), None),
        other => panic!("unexpected token {:?}", other),
    }
    let tokens = Tokenizer::new("18446744073709551615").tokenize().unwrap();
    match &tokens[0] {
        Token::NumberValue(n) => assert_eq!(n.to_u64(), Some(u64::MAX)),
        other => panic!("unexpected token {:?}", other),
    }
}

#[test]
fn token_kinds() {
    assert_eq!(Token::Coma.kind(), TokenKind::Coma);
    assert_eq!(Token::StringValue("x".into()).kind(), TokenKind::String);
}
