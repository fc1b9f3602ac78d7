use sqlparse::token::{ParserError, Token};
use sqlparse::tokenizer::Tokenizer;

fn tokens_of(sql: &str) -> Vec<Token> {
    let mut tokenizer = Tokenizer { query: String::from(sql) };
    tokenizer.tokenize().unwrap()
}

fn compare(expected: Vec<Token>, actual: Vec<Token>) {
    println!("tokens   = {:?}", actual);
    println!("expected = {:?}", expected);
    assert_eq!(expected, actual);
}

fn kw(s: &str) -> Token {
    Token::Keyword(String::from(s))
}

fn ident(s: &str) -> Token {
    Token::Identifier(String::from(s))
}

fn num(s: &str) -> Token {
    Token::Number(String::from(s))
}

#[test]
fn tokenize_select_1() {
    let sql = String::from("SELECT 1");
    let mut tokenizer = Tokenizer { query: sql };
    let tokens = tokenizer.tokenize().unwrap();
    let expected = vec![Token::Keyword(String::from("SELECT")), Token::Number(String::from("1"))];
    compare(expected, tokens);
}

#[test]
fn tokenize_scalar_function() {
    let sql = String::from("SELECT sqrt(1)");
    let mut tokenizer = Tokenizer { query: sql };
    let tokens = tokenizer.tokenize().unwrap();
    let expected = vec![
        Token::Keyword(String::from("SELECT")),
        Token::Identifier(String::from("sqrt")),
        Token::LParen,
        Token::Number(String::from("1")),
        Token::RParen,
    ];
    compare(expected, tokens);
}

#[test]
fn tokenize_simple_select() {
    let sql = String::from("SELECT * FROM customer WHERE id = 1");
    let mut tokenizer = Tokenizer { query: sql };
    let tokens = tokenizer.tokenize().unwrap();
    let expected = vec![
        Token::Keyword(String::from("SELECT")),
        Token::Mult,
        Token::Keyword(String::from("FROM")),
        Token::Identifier(String::from("customer")),
        Token::Keyword(String::from("WHERE")),
        Token::Identifier(String::from("id")),
        Token::Eq,
        Token::Number(String::from("1")),
    ];
    compare(expected, tokens);
}

#[test]
fn whitespace_amount_and_kind_do_not_matter() {
    let one = tokens_of("SELECT a , b FROM t");
    assert_eq!(one, tokens_of("SELECT   a   ,   b   FROM   t"));
    assert_eq!(one, tokens_of("SELECT\ta\t,\tb\tFROM\tt"));
    assert_eq!(one, tokens_of("SELECT\na\n,\nb\nFROM\nt"));
    assert_eq!(one, tokens_of("  SELECT a , b FROM t \n"));
}

#[test]
fn empty_and_blank_queries_have_no_tokens() {
    assert_eq!(tokens_of(""), vec![]);
    assert_eq!(tokens_of(" \t\n "), vec![]);
}

#[test]
fn every_keyword_keeps_its_case() {
    let words = [
        "SELECT", "FROM", "WHERE", "LIMIT", "ORDER", "GROUP", "BY", "UNION", "ALL", "UPDATE",
        "DELETE", "IN", "NOT", "NULL", "SET",
    ];
    for w in words.iter() {
        assert_eq!(tokens_of(w), vec![kw(w)]);
        let lower = w.to_lowercase();
        assert_eq!(tokens_of(&lower), vec![kw(&lower)]);
    }
    assert_eq!(tokens_of("SeLeCt"), vec![kw("SeLeCt")]);
}

#[test]
fn keyword_with_trailing_digit_is_identifier() {
    assert_eq!(tokens_of("SELECT1"), vec![ident("SELECT1")]);
    assert_eq!(tokens_of("from9"), vec![ident("from9")]);
    assert_eq!(tokens_of("SELECTED"), vec![ident("SELECTED")]);
}

#[test]
fn identifier_shapes() {
    assert_eq!(tokens_of("_x1 @v a_b"), vec![ident("_x1"), ident("@v"), ident("a_b")]);
    assert_eq!(tokens_of("12ab"), vec![num("12"), ident("ab")]);
}

#[test]
fn multi_char_operators_are_single_tokens() {
    assert_eq!(tokens_of("<="), vec![Token::LtEq]);
    assert_eq!(tokens_of("<>"), vec![Token::Neq]);
    assert_eq!(tokens_of(">="), vec![Token::GtEq]);
    assert_eq!(tokens_of("<a"), vec![Token::Lt, ident("a")]);
    assert_eq!(tokens_of("< ="), vec![Token::Lt, Token::Eq]);
    assert_eq!(tokens_of("<"), vec![Token::Lt]);
    assert_eq!(tokens_of(">"), vec![Token::Gt]);
    assert_eq!(tokens_of("><"), vec![Token::Gt, Token::Lt]);
}

#[test]
fn punctuation_and_operators() {
    assert_eq!(
        tokens_of(",()+-*/="),
        vec![
            Token::Comma,
            Token::LParen,
            Token::RParen,
            Token::Plus,
            Token::Minus,
            Token::Mult,
            Token::Div,
            Token::Eq
        ]
    );
}

#[test]
fn unknown_character_is_rejected() {
    let mut tokenizer = Tokenizer { query: String::from("SELECT # FROM t") };
    match tokenizer.tokenize() {
        Err(ParserError::TokenizerError(m)) => {
            assert_eq!(m, "unhandled char '#' in tokenizer");
        }
        other => panic!("unexpected {:?}", other),
    }
    let mut tokenizer = Tokenizer { query: String::from("a.b") };
    match tokenizer.tokenize() {
        Err(e) => assert_eq!(e.message(), "unhandled char '.' in tokenizer"),
        other => panic!("unexpected {:?}", other),
    }
}

#[test]
fn non_ascii_character_is_rejected() {
    let mut tokenizer = Tokenizer { query: String::from("SELECT é") };
    match tokenizer.tokenize() {
        Err(ParserError::TokenizerError(m)) => assert_eq!(m, "unhandled char 'é' in tokenizer"),
        other => panic!("unexpected {:?}", other),
    }
}

#[test]
fn duplicate_gives_an_equal_token() {
    let t = ident("abc");
    assert_eq!(t.duplicate(), t);
    assert_eq!(Token::GtEq.duplicate(), Token::GtEq);
}
