use vstd::prelude::*;
use vstd::string::*;

verus! {

/// One lexical unit of a query.
#[derive(Debug, PartialEq)]
pub enum Token {
    Identifier(String),
    Keyword(String),
    Number(String),
    Comma,
    Whitespace,
    Eq,
    Neq,
    Lt,
    Gt,
    LtEq,
    GtEq,
    Plus,
    Minus,
    Mult,
    Div,
    LParen,
    RParen,
}

/// The mathematical value of a token: texts are character sequences.
pub enum SpecToken {
    Identifier(Seq<char>),
    Keyword(Seq<char>),
    Number(Seq<char>),
    Comma,
    Whitespace,
    Eq,
    Neq,
    Lt,
    Gt,
    LtEq,
    GtEq,
    Plus,
    Minus,
    Mult,
    Div,
    LParen,
    RParen,
}

impl View for Token {
    type V = SpecToken;

    open spec fn view(&self) -> SpecToken {
        match self {
            Token::Identifier(s) => SpecToken::Identifier(s@),
            Token::Keyword(s) => SpecToken::Keyword(s@),
            Token::Number(s) => SpecToken::Number(s@),
            Token::Comma => SpecToken::Comma,
            Token::Whitespace => SpecToken::Whitespace,
            Token::Eq => SpecToken::Eq,
            Token::Neq => SpecToken::Neq,
            Token::Lt => SpecToken::Lt,
            Token::Gt => SpecToken::Gt,
            Token::LtEq => SpecToken::LtEq,
            Token::GtEq => SpecToken::GtEq,
            Token::Plus => SpecToken::Plus,
            Token::Minus => SpecToken::Minus,
            Token::Mult => SpecToken::Mult,
            Token::Div => SpecToken::Div,
            Token::LParen => SpecToken::LParen,
            Token::RParen => SpecToken::RParen,
        }
    }
}

/// The models of a sequence of tokens.
pub open spec fn tokens_view(ts: Seq<Token>) -> Seq<SpecToken> {
    ts.map_values(|t: Token| t@)
}

/// How a token is written in a query: its text, or its symbol.
pub open spec fn token_text(t: SpecToken) -> Seq<char> {
    match t {
        SpecToken::Identifier(s) => s,
        SpecToken::Keyword(s) => s,
        SpecToken::Number(s) => s,
        SpecToken::Comma => ","@,
        SpecToken::Whitespace => " "@,
        SpecToken::Eq => "="@,
        SpecToken::Neq => "<>"@,
        SpecToken::Lt => "<"@,
        SpecToken::Gt => ">"@,
        SpecToken::LtEq => "<="@,
        SpecToken::GtEq => ">="@,
        SpecToken::Plus => "+"@,
        SpecToken::Minus => "-"@,
        SpecToken::Mult => "*"@,
        SpecToken::Div => "/"@,
        SpecToken::LParen => "("@,
        SpecToken::RParen => ")"@,
    }
}

impl Token {
    /// How this token is written in a query.
    pub fn text(&self) -> (r: String)
        ensures
            r@ == token_text(self@),
    {
        match self {
            Token::Identifier(s) => s.clone(),
            Token::Keyword(s) => s.clone(),
            Token::Number(s) => s.clone(),
            Token::Comma => String::from_str(","),
            Token::Whitespace => String::from_str(" "),
            Token::Eq => String::from_str("="),
            Token::Neq => String::from_str("<>"),
            Token::Lt => String::from_str("<"),
            Token::Gt => String::from_str(">"),
            Token::LtEq => String::from_str("<="),
            Token::GtEq => String::from_str(">="),
            Token::Plus => String::from_str("+"),
            Token::Minus => String::from_str("-"),
            Token::Mult => String::from_str("*"),
            Token::Div => String::from_str("/"),
            Token::LParen => String::from_str("("),
            Token::RParen => String::from_str(")"),
        }
    }

    /// A fresh token equal to this one.
    pub fn duplicate(&self) -> (r: Token)
        ensures
            r == *self,
    {
        match self {
            Token::Identifier(s) => Token::Identifier(s.clone()),
            Token::Keyword(s) => Token::Keyword(s.clone()),
            Token::Number(s) => Token::Number(s.clone()),
            Token::Comma => Token::Comma,
            Token::Whitespace => Token::Whitespace,
            Token::Eq => Token::Eq,
            Token::Neq => Token::Neq,
            Token::Lt => Token::Lt,
            Token::Gt => Token::Gt,
            Token::LtEq => Token::LtEq,
            Token::GtEq => Token::GtEq,
            Token::Plus => Token::Plus,
            Token::Minus => Token::Minus,
            Token::Mult => Token::Mult,
            Token::Div => Token::Div,
            Token::LParen => Token::LParen,
            Token::RParen => Token::RParen,
        }
    }
}

/// A failure of the scanner or of the parser, with a message.
#[derive(Debug)]
pub enum ParserError {
    TokenizerError(String),
    ParserError(String),
}

impl ParserError {
    /// The message that the error carries.
    pub fn message(&self) -> (r: String)
        ensures
            r@ == match self {
                ParserError::TokenizerError(m) => m@,
                ParserError::ParserError(m) => m@,
            },
    {
        match self {
            ParserError::TokenizerError(m) => m.clone(),
            ParserError::ParserError(m) => m.clone(),
        }
    }
}

} // verus!
