use cgx::lexer::{flip_state, tokenize, LexError, LexerState, LiteralParsing};
use cgx::parser::{
    parse_bloc, parse_cgxcode, parse_document, parse_element, parse_key_value,
    parse_primitive_type, CgxError, Element, ParseError,
};
use cgx::token::{PrimitiveType, Token};

fn num(n: i32) -> Element {
    Element::PRIMITIVE_TYPE(PrimitiveType::Number(n))
}

fn kv(k: &str, v: Element) -> Element {
    Element::KEY_VALUE(k.to_string(), Box::new(v))
}

fn st(s: &str) -> Token {
    Token::Literal(PrimitiveType::String(s.to_string()))
}

#[test]
fn test_tokenize() {
    let s = b"(('k1'=1);('k2'=2))";
    let tokens = tokenize(s).unwrap();
    println!("{:?}", tokens);
    assert_eq!(
        tokens,
        vec![
            Token::Lpar,
            Token::Lpar,
            st("k1"),
            Token::Equal,
            Token::Literal(PrimitiveType::Number(1)),
            Token::Rpar,
            Token::Semicolumn,
            Token::Lpar,
            st("k2"),
            Token::Equal,
            Token::Literal(PrimitiveType::Number(2)),
            Token::Rpar,
            Token::Rpar,
        ]
    );
}

#[test]
fn test_parse() {
    let s = b"(('k1'=1);('k2'=2))";
    let tokens = tokenize(s).unwrap();
    let parsed = parse_element(&tokens, 0);
    println!("{:?}", parsed);
    let (e, end) = parsed.unwrap();
    println!("{:?}", &tokens[end..]);
    assert_eq!(end, tokens.len());
    assert_eq!(
        e,
        Element::BLOC(vec![
            Element::BLOC(vec![kv("k1", num(1))]),
            Element::BLOC(vec![kv("k2", num(2))]),
        ])
    );
}

#[test]
fn nested_scenario_parses() {
    let e = parse_cgxcode(b"('a'=true;'b'=(1;2;3))").unwrap();
    assert_eq!(
        e,
        Element::BLOC(vec![
            kv("a", Element::PRIMITIVE_TYPE(PrimitiveType::Boolean(true))),
            kv("b", Element::BLOC(vec![num(1), num(2), num(3)])),
        ])
    );
}

#[test]
fn flat_key_values_parse() {
    let e = parse_cgxcode(b"('k1'=1;'k2'=2)").unwrap();
    assert_eq!(e, Element::BLOC(vec![kv("k1", num(1)), kv("k2", num(2))]));
}

#[test]
fn missing_value_fails() {
    assert_eq!(parse_cgxcode(b"('x'=)"), Err(CgxError::Parse(ParseError::NoMatchingRule)));
}

#[test]
fn unmatched_open_fails() {
    assert_eq!(parse_cgxcode(b"((1)"), Err(CgxError::Parse(ParseError::NoMatchingRule)));
    assert_eq!(parse_cgxcode(b"(1;2"), Err(CgxError::Parse(ParseError::NoMatchingRule)));
    let tokens = tokenize(b"(").unwrap();
    assert_eq!(parse_element(&tokens, 0), None);
}

#[test]
fn unmatched_close_leaves_tokens() {
    let tokens = tokenize(b"(1))").unwrap();
    let (e, end) = parse_element(&tokens, 0).unwrap();
    assert_eq!(e, Element::BLOC(vec![num(1)]));
    assert_eq!(end, 3);
    assert_eq!(tokens[end], Token::Rpar);
    assert_eq!(parse_document(&tokens), Err(ParseError::TrailingTokens));
}

#[test]
fn empty_block_parses() {
    let e = parse_cgxcode(b"()").unwrap();
    assert_eq!(e, Element::BLOC(vec![]));
    let e = parse_cgxcode(b"(();'k'=())").unwrap();
    assert_eq!(e, Element::BLOC(vec![Element::BLOC(vec![]), kv("k", Element::BLOC(vec![]))]));
}

#[test]
fn trailing_semicolon_fails() {
    assert_eq!(parse_cgxcode(b"(1;)"), Err(CgxError::Parse(ParseError::NoMatchingRule)));
}

#[test]
fn empty_string_lexes() {
    assert_eq!(tokenize(b"''").unwrap(), vec![st("")]);
}

#[test]
fn literal_kinds_lex() {
    assert_eq!(
        tokenize(b"true;false;0042;2147483647").unwrap(),
        vec![
            Token::boolean(true),
            Token::Semicolumn,
            Token::boolean(false),
            Token::Semicolumn,
            Token::number(42),
            Token::Semicolumn,
            Token::number(i32::MAX),
        ]
    );
    assert_eq!(tokenize(b"true1").unwrap(), vec![Token::boolean(true), Token::number(1)]);
    assert_eq!(tokenize(b"12:=").unwrap(), vec![Token::number(12), Token::Column, Token::Equal]);
}

#[test]
fn word_prefix_is_not_whole_word() {
    assert_eq!(tokenize(b"truefoo"), Err(LexError::UnrecognizedCharacter));
    assert_eq!(tokenize(b"x"), Err(LexError::UnrecognizedCharacter));
    assert_eq!(tokenize(b"( 1)"), Err(LexError::UnrecognizedCharacter));
}

#[test]
fn number_overflow_fails() {
    assert_eq!(tokenize(b"2147483648"), Err(LexError::InvalidNumber));
    assert_eq!(tokenize(b"(99999999999999999999)"), Err(LexError::InvalidNumber));
}

#[test]
fn unterminated_string_fails() {
    assert_eq!(tokenize(b"('abc"), Err(LexError::UnterminatedString));
    assert_eq!(tokenize(b"'"), Err(LexError::UnterminatedString));
}

#[test]
fn string_bytes_decode() {
    let tokens = tokenize("'h\u{e9}llo;(x)'".as_bytes()).unwrap();
    assert_eq!(tokens, vec![st("h\u{e9}llo;(x)")]);
    assert_eq!(tokenize(b"'\xff'"), Err(LexError::InvalidUtf8));
}

#[test]
fn literal_find_reports_end() {
    let m = LiteralParsing::find(b"(false)", 1).unwrap();
    assert_eq!(m.end, 6);
    assert_eq!(m.token, Token::boolean(false));
    let m = LiteralParsing::find(b"x123;", 1).unwrap();
    assert_eq!(m.end, 4);
    assert_eq!(m.token, Token::number(123));
    assert!(LiteralParsing::find(b"abc", 0).is_err());
}

#[test]
fn flip_state_alternates() {
    assert_eq!(flip_state(LexerState::InQuotes), LexerState::OutQuotes);
    assert_eq!(flip_state(LexerState::OutQuotes), LexerState::InQuotes);
}

#[test]
fn token_builders() {
    assert_eq!(Token::boolean(false), Token::Literal(PrimitiveType::Boolean(false)));
    assert_eq!(Token::number(-3), Token::Literal(PrimitiveType::Number(-3)));
    assert_eq!(Token::string("q".to_string()), st("q"));
}

#[test]
fn rules_start_anywhere() {
    let tokens = tokenize(b"1;'k'=(2);'s'").unwrap();
    assert_eq!(parse_primitive_type(&tokens, 0), Some((num(1), 1)));
    assert_eq!(parse_primitive_type(&tokens, 1), None);
    assert_eq!(parse_key_value(&tokens, 2), Some((kv("k", Element::BLOC(vec![num(2)])), 7)));
    assert_eq!(parse_key_value(&tokens, 8), None);
    assert_eq!(parse_bloc(&tokens, 4), Some((Element::BLOC(vec![num(2)]), 7)));
    assert_eq!(parse_bloc(&tokens, 0), None);
    assert_eq!(parse_element(&tokens, 8), Some((Element::PRIMITIVE_TYPE(PrimitiveType::String("s".to_string())), 9)));
    assert_eq!(parse_element(&tokens, 9), None);
}

#[test]
fn key_must_be_a_string() {
    let tokens = tokenize(b"1=2").unwrap();
    assert_eq!(parse_key_value(&tokens, 0), None);
    assert_eq!(parse_document(&tokens), Err(ParseError::TrailingTokens));
}

#[test]
fn parsing_twice_gives_equal_trees() {
    let tokens = tokenize(b"('a'=(1;'b');true)").unwrap();
    assert_eq!(parse_document(&tokens), parse_document(&tokens));
    assert!(parse_document(&tokens).is_ok());
}

#[test]
fn rendered_tree_parses_back() {
    let tree = Element::BLOC(vec![
        kv("a", Element::BLOC(vec![num(7), Element::BLOC(vec![])])),
        Element::PRIMITIVE_TYPE(PrimitiveType::String("s".to_string())),
        num(-5),
    ]);
    let tokens = vec![
        Token::Lpar,
        st("a"),
        Token::Equal,
        Token::Lpar,
        Token::number(7),
        Token::Semicolumn,
        Token::Lpar,
        Token::Rpar,
        Token::Rpar,
        Token::Semicolumn,
        st("s"),
        Token::Semicolumn,
        Token::number(-5),
        Token::Rpar,
    ];
    assert_eq!(parse_document(&tokens), Ok(tree));
}

#[test]
fn colon_is_lexed_but_not_parsed() {
    assert_eq!(
        tokenize(b"(1:2)").unwrap(),
        vec![Token::Lpar, Token::number(1), Token::Column, Token::number(2), Token::Rpar]
    );
    assert_eq!(parse_cgxcode(b"(1:2)"), Err(CgxError::Parse(ParseError::NoMatchingRule)));
}

#[test]
fn literal_find_past_end_fails() {
    assert!(LiteralParsing::find(b"12", 2).is_err());
}
