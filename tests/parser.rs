use sqlparse::ast::{ASTNode, SQLOperator};
use sqlparse::parser::{Parser, DEFAULT_MAX_DEPTH};
use sqlparse::token::{ParserError, Token};
use sqlparse::tokenizer::Tokenizer;

fn ident(s: &str) -> ASTNode {
    ASTNode::SQLIdentifier { id: String::from(s), parts: vec![] }
}

fn parse_str(sql: &str) -> Result<ASTNode, ParserError> {
    Parser::parse_sql(String::from(sql))
}

fn is_parser_error(r: &Result<ASTNode, ParserError>) -> bool {
    matches!(r, Err(ParserError::ParserError(_)))
}

#[test]
fn parse_simple_select() {
    let sql = String::from("SELECT id, fname, lname FROM customer WHERE id = 1");
    let mut tokenizer = Tokenizer { query: sql };
    let tokens = tokenizer.tokenize().unwrap();
    let mut parser = Parser::new(tokens);
    let ast = parser.parse().unwrap();
    println!("AST = {:?}", ast);
    match ast {
        ASTNode::SQLSelect { projection, .. } => {
            assert_eq!(3, projection.len());
        }
        _ => assert!(false),
    }
}

#[test]
fn parse_scalar_function_in_projection() {
    let sql = String::from("SELECT sqrt(id) FROM foo");
    let mut tokenizer = Tokenizer { query: sql };
    let tokens = tokenizer.tokenize().unwrap();
    let mut parser = Parser::new(tokens);
    let ast = parser.parse().unwrap();
    println!("AST = {:?}", ast);
}

#[test]
fn simple_select_has_the_full_tree() {
    let ast = parse_str("SELECT id, fname, lname FROM customer WHERE id = 1").unwrap();
    let expected = ASTNode::SQLSelect {
        projection: vec![ident("id"), ident("fname"), ident("lname")],
        selection: Some(Box::new(ASTNode::SQLBinaryExpr {
            left: Box::new(ident("id")),
            op: SQLOperator::EQ,
            right: Box::new(ASTNode::SQLLiteralInt(1)),
        })),
        relation: Some(Box::new(ident("customer"))),
        limit: None,
        order: None,
    };
    assert_eq!(ast, expected);
}

#[test]
fn function_call_in_projection_has_its_arguments() {
    let ast = parse_str("SELECT sqrt(id) FROM foo").unwrap();
    let expected = ASTNode::SQLSelect {
        projection: vec![ASTNode::SQLFunction { id: String::from("sqrt"), args: vec![ident("id")] }],
        selection: None,
        relation: Some(Box::new(ident("foo"))),
        limit: None,
        order: None,
    };
    assert_eq!(ast, expected);
}

#[test]
fn function_with_several_arguments() {
    let ast = parse_str("SELECT f(a, 2, g(b))").unwrap();
    let expected = ASTNode::SQLSelect {
        projection: vec![ASTNode::SQLFunction {
            id: String::from("f"),
            args: vec![
                ident("a"),
                ASTNode::SQLLiteralInt(2),
                ASTNode::SQLFunction { id: String::from("g"), args: vec![ident("b")] },
            ],
        }],
        selection: None,
        relation: None,
        limit: None,
        order: None,
    };
    assert_eq!(ast, expected);
}

#[test]
fn select_of_one_literal() {
    let ast = parse_str("select 1").unwrap();
    let expected = ASTNode::SQLSelect {
        projection: vec![ASTNode::SQLLiteralInt(1)],
        selection: None,
        relation: None,
        limit: None,
        order: None,
    };
    assert_eq!(ast, expected);
}

#[test]
fn trailing_token_is_rejected() {
    assert!(is_parser_error(&parse_str("SELECT 1 2")));
    assert!(is_parser_error(&parse_str("SELECT a FROM t WHERE a = 1 LIMIT")));
}

#[test]
fn unknown_character_is_reported_by_parse_sql() {
    match parse_str("SELECT a # b") {
        Err(ParserError::TokenizerError(m)) => assert!(m.contains('#')),
        other => panic!("unexpected {:?}", other),
    }
}

#[test]
fn operators_without_infix_rule_are_rejected() {
    assert!(is_parser_error(&parse_str("SELECT 1 < 2")));
    assert!(is_parser_error(&parse_str("SELECT 1 <= 2")));
    assert!(is_parser_error(&parse_str("SELECT 1 <> 2")));
    assert!(is_parser_error(&parse_str("SELECT 1 >= 2")));
    assert!(is_parser_error(&parse_str("SELECT 1 + 2")));
    assert!(is_parser_error(&parse_str("SELECT 1 * 2")));
}

#[test]
fn greater_than_builds_a_binary_expression() {
    let ast = parse_str("SELECT a > 2").unwrap();
    let expected = ASTNode::SQLSelect {
        projection: vec![ASTNode::SQLBinaryExpr {
            left: Box::new(ident("a")),
            op: SQLOperator::GT,
            right: Box::new(ASTNode::SQLLiteralInt(2)),
        }],
        selection: None,
        relation: None,
        limit: None,
        order: None,
    };
    assert_eq!(ast, expected);
}

#[test]
fn chained_comparisons_group_to_the_right() {
    let ast = parse_str("a = b > 3").unwrap();
    let expected = ASTNode::SQLBinaryExpr {
        left: Box::new(ident("a")),
        op: SQLOperator::EQ,
        right: Box::new(ASTNode::SQLBinaryExpr {
            left: Box::new(ident("b")),
            op: SQLOperator::GT,
            right: Box::new(ASTNode::SQLLiteralInt(3)),
        }),
    };
    assert_eq!(ast, expected);
}

#[test]
fn other_keyword_in_prefix_position_is_rejected() {
    assert!(is_parser_error(&parse_str("FROM t")));
    assert!(is_parser_error(&parse_str("SELECT FROM")));
}

#[test]
fn missing_tokens_are_rejected() {
    assert!(is_parser_error(&parse_str("")));
    assert!(is_parser_error(&parse_str("SELECT")));
    assert!(is_parser_error(&parse_str("SELECT a,")));
    assert!(is_parser_error(&parse_str("SELECT a FROM")));
    assert!(is_parser_error(&parse_str("SELECT a = ")));
    assert!(is_parser_error(&parse_str(", a")));
}

#[test]
fn unclosed_function_call_is_rejected() {
    assert!(is_parser_error(&parse_str("SELECT f(a")));
    assert!(is_parser_error(&parse_str("SELECT f(a b)")));
}

#[test]
fn integer_literal_limits() {
    assert_eq!(parse_str("9223372036854775807").unwrap(), ASTNode::SQLLiteralInt(i64::MAX));
    assert_eq!(parse_str("007").unwrap(), ASTNode::SQLLiteralInt(7));
    assert!(is_parser_error(&parse_str("9223372036854775808")));
    let mut p = Parser::new(vec![Token::Number(String::from("1x"))]);
    assert!(is_parser_error(&p.parse()));
}

#[test]
fn parse_stops_before_a_token_without_precedence() {
    let mut p = Parser::new(vec![
        Token::Identifier(String::from("a")),
        Token::Identifier(String::from("b")),
    ]);
    assert_eq!(p.parse().unwrap(), ident("a"));
    assert_eq!(p.parse().unwrap(), ident("b"));
    assert!(is_parser_error(&p.parse()));
}

#[test]
fn parser_errors_carry_a_message() {
    match parse_str("SELECT 1 < 2") {
        Err(e) => assert!(!e.message().is_empty()),
        Ok(a) => panic!("unexpected {:?}", a),
    }
}

#[test]
fn nesting_beyond_the_bound_is_rejected() {
    let mut sql = String::from("SELECT ");
    for _ in 0..2000 {
        sql.push_str("f(");
    }
    sql.push('a');
    for _ in 0..2000 {
        sql.push(')');
    }
    assert!(is_parser_error(&Parser::parse_sql(sql)));
}

#[test]
fn configured_bound_on_nesting() {
    let tokens = || {
        let mut tokenizer = Tokenizer { query: String::from("f(g(a))") };
        tokenizer.tokenize().unwrap()
    };
    let mut shallow = Parser::with_max_depth(tokens(), 2);
    assert!(is_parser_error(&shallow.parse()));
    let mut enough = Parser::with_max_depth(tokens(), 3);
    let expected = ASTNode::SQLFunction {
        id: String::from("f"),
        args: vec![ASTNode::SQLFunction { id: String::from("g"), args: vec![ident("a")] }],
    };
    assert_eq!(enough.parse().unwrap(), expected);
    let mut none = Parser::with_max_depth(tokens(), 0);
    assert!(is_parser_error(&none.parse()));
}

#[test]
fn default_bound_allows_moderate_nesting() {
    let depth = DEFAULT_MAX_DEPTH / 2 - 2;
    let mut sql = String::from("SELECT ");
    for _ in 0..depth {
        sql.push_str("f(");
    }
    sql.push('a');
    for _ in 0..depth {
        sql.push(')');
    }
    assert!(Parser::parse_sql(sql).is_ok());
}

#[test]
fn missing_infix_rule_is_named_in_the_error() {
    match parse_str("SELECT 1 < 2") {
        Err(ParserError::ParserError(m)) => assert_eq!(m, "no infix rule for token <"),
        other => panic!("unexpected {:?}", other),
    }
    match parse_str("SELECT a + b") {
        Err(ParserError::ParserError(m)) => assert_eq!(m, "no infix rule for token +"),
        other => panic!("unexpected {:?}", other),
    }
}

#[test]
fn right_operand_error_is_passed_on() {
    match parse_str("SELECT a = FROM") {
        Err(ParserError::ParserError(m)) => assert_eq!(m, "no prefix rule for keyword FROM"),
        other => panic!("unexpected {:?}", other),
    }
    match parse_str("SELECT a = 1 2") {
        Err(ParserError::ParserError(m)) => {
            assert_eq!(m, "unexpected trailing token at end of SELECT")
        }
        other => panic!("unexpected {:?}", other),
    }
}

#[test]
fn keywords_match_in_any_case() {
    let ast = parse_str("select a from t").unwrap();
    let expected = ASTNode::SQLSelect {
        projection: vec![ident("a")],
        selection: None,
        relation: Some(Box::new(ident("t"))),
        limit: None,
        order: None,
    };
    assert_eq!(ast, expected);
}

#[test]
fn parse_sql_agrees_with_tokenize_then_parse() {
    for sql in ["SELECT id FROM t WHERE id = 1", "SELECT 1 < 2", "SELECT #", "f(a", ""].iter() {
        let direct = Parser::parse_sql(String::from(*sql));
        let mut tokenizer = Tokenizer { query: String::from(*sql) };
        let staged = match tokenizer.tokenize() {
            Err(e) => Err(e),
            Ok(tokens) => Parser::new(tokens).parse(),
        };
        assert_eq!(format!("{:?}", direct), format!("{:?}", staged));
    }
}

#[test]
fn token_text_gives_the_symbol_or_text() {
    assert_eq!(Token::LtEq.text(), "<=");
    assert_eq!(Token::Identifier(String::from("abc")).text(), "abc");
}
