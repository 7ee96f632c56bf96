use json_parser::error;
use json_parser::{parse, Json, ParseError, Token, TokenKind, TokenStream, Tokenizer};

fn number_value(j: &Json) -> f64 {
    match j {
        Json::Number(n) => n.to_u64().expect("number fits in u64") as f64,
        other => panic!("not a number: {:?}", other),
    }
}

#[test]
fn literals_parse_to_their_values() {
    assert_eq!(parse("null").unwrap(), Json::Null);
    assert_eq!(parse("true").unwrap(), Json::Bool(true));
    assert_eq!(parse("false").unwrap(), Json::Bool(false));
}

#[test]
fn digits_parse_to_their_number() {
    assert_eq!(number_value(&parse("123").unwrap()), 123.0);
    assert_eq!(number_value(&parse("0").unwrap()), 0.0);
    assert_eq!(number_value(&parse("007").unwrap()), 7.0);
}

#[test]
fn quoted_body_is_kept_as_is() {
    assert_eq!(parse(r#""hello""#).unwrap(), Json::String("hello".to_string()));
    assert_eq!(parse(r#""""#).unwrap(), Json::String(String::new()));
    assert_eq!(parse(r#""a\b""#).unwrap(), Json::String("a\\b".to_string()));
}

#[test]
fn object_with_nested_array() {
    let v = parse(r#"{"str": "hello", "num": 123, "array":[true, false, null]}"#).unwrap();
    let obj = match v {
        Json::Object(o) => o,
        other => panic!("not an object: {:?}", other),
    };
    assert_eq!(obj.get("str"), Some(&Json::String("hello".to_string())));
    assert_eq!(number_value(obj.get("num").unwrap()), 123.0);
    assert_eq!(
        obj.get("array"),
        Some(&Json::Array(vec![Json::Bool(true), Json::Bool(false), Json::Null]))
    );
    assert_eq!(obj.get("missing"), None);
}

#[test]
fn empty_containers() {
    assert_eq!(parse("[]").unwrap(), Json::Array(vec![]));
    match parse("{}").unwrap() {
        Json::Object(o) => assert_eq!(o.get("a"), None),
        other => panic!("not an object: {:?}", other),
    }
}

#[test]
fn trailing_comma_fails() {
    assert_eq!(
        parse("[1,2,]"),
        Err(error::Error::Parse(ParseError::UnexpectedToken))
    );
    assert_eq!(
        parse(r#"{"a":1,}"#),
        Err(error::Error::Parse(ParseError::KeyExpected))
    );
}

#[test]
fn unterminated_object_fails() {
    assert_eq!(
        parse("{\"a\":1"),
        Err(error::Error::Parse(ParseError::UnterminatedObject))
    );
    assert_eq!(
        parse("{\"a\""),
        Err(error::Error::Parse(ParseError::UnterminatedObject))
    );
}

#[test]
fn unterminated_array_fails() {
    assert_eq!(parse("["), Err(error::Error::Parse(ParseError::UnterminatedArray)));
    assert_eq!(parse("[1,"), Err(error::Error::Parse(ParseError::UnterminatedArray)));
}

#[test]
fn missing_comma_fails() {
    assert_eq!(
        parse("[1 2]"),
        Err(error::Error::Parse(ParseError::Token(TokenKind::Coma)))
    );
}

#[test]
fn missing_colon_fails() {
    assert_eq!(
        parse(r#"{"a" 1}"#),
        Err(error::Error::Parse(ParseError::Token(TokenKind::Colon)))
    );
}

#[test]
fn non_string_key_fails() {
    assert_eq!(parse("{1:2}"), Err(error::Error::Parse(ParseError::KeyExpected)));
}

#[test]
fn empty_input_fails() {
    assert_eq!(parse(""), Err(error::Error::Parse(ParseError::UnexpectedToken)));
    assert_eq!(parse("]"), Err(error::Error::Parse(ParseError::UnexpectedToken)));
}

#[test]
fn tokenize_errors_pass_through() {
    assert_eq!(
        parse("\"abc"),
        Err(error::Error::Tokenize(json_parser::Error::Unterminated))
    );
    assert_eq!(
        parse("[xyz]"),
        Err(error::Error::Tokenize(json_parser::Error::UnknownKeyword("xyz".to_string())))
    );
}

#[test]
fn duplicate_key_last_wins() {
    match parse(r#"{"a": 1, "b": true, "a": null}"#).unwrap() {
        Json::Object(o) => {
            assert_eq!(o.get("a"), Some(&Json::Null));
            assert_eq!(o.get("b"), Some(&Json::Bool(true)));
        }
        other => panic!("not an object: {:?}", other),
    }
}

#[test]
fn nested_arrays() {
    assert_eq!(
        parse("[[],[null]]").unwrap(),
        Json::Array(vec![Json::Array(vec![]), Json::Array(vec![Json::Null])])
    );
}

#[test]
fn trailing_tokens_are_ignored() {
    assert_eq!(parse("null ]").unwrap(), Json::Null);
}

#[test]
fn single_token_readers_check_the_kind() {
    let tokens = Tokenizer::new("true").tokenize().unwrap();
    let mut ts = TokenStream::new(tokens);
    assert_eq!(
        json_parser::parser::parse_null(&mut ts),
        Err(ParseError::Token(TokenKind::Null))
    );
    let mut ts = TokenStream::new(vec![Token::BoolValue(false)]);
    assert_eq!(json_parser::parser::parse_bool(&mut ts), Ok(Json::Bool(false)));
    let mut ts = TokenStream::new(vec![Token::NullValue]);
    assert_eq!(
        json_parser::parser::parse_string(&mut ts),
        Err(ParseError::Token(TokenKind::String))
    );
    let mut ts = TokenStream::new(vec![Token::NullValue]);
    assert_eq!(
        json_parser::parser::parse_number(&mut ts),
        Err(ParseError::Token(TokenKind::Number))
    );
}

#[test]
fn parse_item_reads_one_value_from_the_stream() {
    let tokens = Tokenizer::new("[true] null").tokenize().unwrap();
    let mut ts = TokenStream::new(tokens);
    assert_eq!(
        json_parser::parser::parse_item(&mut ts),
        Ok(Json::Array(vec![Json::Bool(true)]))
    );
    assert_eq!(ts.peek(), Some(&Token::NullValue));
    assert_eq!(json_parser::parser::parse_item(&mut ts), Ok(Json::Null));
    assert_eq!(ts.peek(), None);
}

#[test]
fn object_insert_replaces() {
    let mut o = json_parser::Object::new();
    o.insert("k".to_string(), Json::Null);
    o.insert("k".to_string(), Json::Bool(true));
    assert_eq!(o.get("k"), Some(&Json::Bool(true)));
}
