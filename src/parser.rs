use vstd::prelude::*;

use vstd::string::*;

use crate::ast::{nodes_view, opt_view, ASTNode, Ast, SQLOperator};
use crate::token::{token_text, tokens_view, ParserError, SpecToken, Token};
use crate::tokenizer::{ci_equal, ci_match, scan, unhandled_message, Tokenizer};

verus! {

/// How tightly an operator token binds; zero for every other token.
pub open spec fn precedence(t: SpecToken) -> u8 {
    match t {
        SpecToken::Eq | SpecToken::Lt | SpecToken::LtEq | SpecToken::Neq | SpecToken::Gt
        | SpecToken::GtEq => 20,
        SpecToken::Plus | SpecToken::Minus => 30,
        SpecToken::Mult | SpecToken::Div => 40,
        _ => 0,
    }
}

/// The operator that a token denotes in an expression.
pub open spec fn operator_of(t: SpecToken) -> Option<SQLOperator> {
    match t {
        SpecToken::Eq => Some(SQLOperator::EQ),
        SpecToken::Neq => Some(SQLOperator::NEQ),
        SpecToken::Lt => Some(SQLOperator::LT),
        SpecToken::LtEq => Some(SQLOperator::LTEQ),
        SpecToken::Gt => Some(SQLOperator::GT),
        SpecToken::GtEq => Some(SQLOperator::GTEQ),
        SpecToken::Plus => Some(SQLOperator::PLUS),
        SpecToken::Minus => Some(SQLOperator::MINUS),
        SpecToken::Mult => Some(SQLOperator::MULT),
        SpecToken::Div => Some(SQLOperator::DIV),
        _ => None,
    }
}

/// The tokens that have an infix rule.
pub open spec fn has_infix_rule(t: SpecToken) -> bool {
    t is Eq || t is Gt
}

/// The token at `pos` is the keyword `word`, in any case.
pub open spec fn keyword_at(ts: Seq<SpecToken>, pos: int, word: Seq<char>) -> bool {
    0 <= pos < ts.len() && (ts[pos] matches SpecToken::Keyword(k) && ci_match(k, word))
}

/// The value of a nonempty run of decimal digits.
pub open spec fn digits_value(s: Seq<char>) -> int
    decreases s.len(),
{
    if s.len() == 0 {
        0
    } else {
        digits_value(s.drop_last()) * 10 + (s.last() as int - '0' as int)
    }
}

/// The integer that the text of a number token denotes, where it fits in an `i64`.
pub open spec fn number_value(s: Seq<char>) -> Option<int> {
    if 0 < s.len() && (forall|j: int| 0 <= j < s.len() ==> '0' <= #[trigger] s[j] <= '9')
        && digits_value(s) <= i64::MAX {
        Some(digits_value(s))
    } else {
        None
    }
}

/// A parse step that started at `pos` and stopped at `p` consumed at least
/// one token and stayed within the sequence.
pub open spec fn advanced(ts: Seq<SpecToken>, pos: int, p: int) -> bool {
    pos < p <= ts.len()
}

/// One expression at `pos` whose operators all bind tighter than `min`,
/// with the position after it. `depth` bounds how deeply expressions may
/// nest; at zero no expression may begin.
pub open spec fn expr_spec(ts: Seq<SpecToken>, pos: int, min: u8, depth: nat) -> Result<
    (Ast, int),
    Seq<char>,
>
    decreases ts.len() - pos, 2nat,
{
    if depth == 0 {
        Err("expressions nest too deeply"@)
    } else {
        match prefix_spec(ts, pos, (depth - 1) as nat) {
            Err(m) => Err(m),
            Ok((lhs, p)) => if advanced(ts, pos, p) {
                tail_spec(ts, lhs, p, min, (depth - 1) as nat)
            } else {
                Err("parser made no progress"@)
            },
        }
    }
}

/// The infix operators that follow the expression `lhs`, which ends at `pos`.
pub open spec fn tail_spec(ts: Seq<SpecToken>, lhs: Ast, pos: int, min: u8, depth: nat) -> Result<
    (Ast, int),
    Seq<char>,
>
    decreases ts.len() - pos, 1nat,
{
    if pos < 0 || pos >= ts.len() || precedence(ts[pos]) <= min {
        Ok((lhs, pos))
    } else {
        match infix_spec(ts, lhs, pos, min, depth) {
            Err(m) => Err(m),
            Ok((e, p)) => if advanced(ts, pos, p) {
                tail_spec(ts, e, p, min, depth)
            } else {
                Err("parser made no progress"@)
            },
        }
    }
}

/// The operator token at `pos` applied to `lhs` and the expression after it.
pub open spec fn infix_spec(ts: Seq<SpecToken>, lhs: Ast, pos: int, min: u8, depth: nat) -> Result<
    (Ast, int),
    Seq<char>,
>
    decreases ts.len() - pos, 0nat,
{
    if pos < 0 || pos >= ts.len() {
        Err("infix rule hit end of input"@)
    } else if !has_infix_rule(ts[pos]) {
        Err("no infix rule for token "@ + token_text(ts[pos]))
    } else {
        match expr_spec(ts, pos + 1, min, depth) {
            Err(m) => Err(m),
            Ok((rhs, p)) => Ok(
                (
                    Ast::Binary {
                        left: Box::new(lhs),
                        op: operator_of(ts[pos])->Some_0,
                        right: Box::new(rhs),
                    },
                    p,
                ),
            ),
        }
    }
}

/// The expression that begins with the token at `pos`, before any infix operator.
pub open spec fn prefix_spec(ts: Seq<SpecToken>, pos: int, depth: nat) -> Result<(Ast, int), Seq<char>>
    decreases ts.len() - pos, 1nat,
{
    if pos < 0 || pos >= ts.len() {
        Err("prefix rule hit end of input"@)
    } else {
        match ts[pos] {
            SpecToken::Keyword(k) => if ci_match(k, "SELECT"@) {
                select_spec(ts, pos + 1, depth)
            } else {
                Err("no prefix rule for keyword "@ + k)
            },
            SpecToken::Identifier(id) => if pos + 1 < ts.len() && ts[pos + 1] is LParen {
                match list_spec(ts, pos + 2, depth) {
                    Err(m) => Err(m),
                    Ok((args, p)) => if 0 <= p < ts.len() && ts[p] is RParen {
                        Ok((Ast::Function { name: id, args }, p + 1))
                    } else {
                        Err("expected ')' after function arguments"@)
                    },
                }
            } else {
                Ok((Ast::Identifier { name: id, parts: Seq::empty() }, pos + 1))
            },
            SpecToken::Number(n) => match number_value(n) {
                Some(v) => Ok((Ast::Int(v), pos + 1)),
                None => Err("invalid integer literal"@),
            },
            _ => Err("no prefix rule for token "@ + token_text(ts[pos])),
        }
    }
}

/// A comma-separated list of one or more expressions at `pos`.
pub open spec fn list_spec(ts: Seq<SpecToken>, pos: int, depth: nat) -> Result<(Seq<Ast>, int), Seq<char>>
    decreases ts.len() - pos, 3nat,
{
    match expr_spec(ts, pos, 0, depth) {
        Err(m) => Err(m),
        Ok((e, p)) => if !advanced(ts, pos, p) {
            Err("parser made no progress"@)
        } else if p < ts.len() && ts[p] is Comma {
            match list_spec(ts, p + 1, depth) {
                Err(m) => Err(m),
                Ok((rest, q)) => Ok((seq![e] + rest, q)),
            }
        } else {
            Ok((seq![e], p))
        },
    }
}

/// An optional clause at `pos` that begins with the keyword `word`.
pub open spec fn clause_spec(ts: Seq<SpecToken>, pos: int, word: Seq<char>, depth: nat) -> Result<
    (Option<Box<Ast>>, int),
    Seq<char>,
>
    decreases ts.len() - pos, 3nat,
{
    if keyword_at(ts, pos, word) {
        match expr_spec(ts, pos + 1, 0, depth) {
            Err(m) => Err(m),
            Ok((e, p)) => Ok((Some(Box::new(e)), p)),
        }
    } else {
        Ok((None, pos))
    }
}

/// The rest of a select statement, after its keyword, up to the end of the tokens.
pub open spec fn select_spec(ts: Seq<SpecToken>, pos: int, depth: nat) -> Result<(Ast, int), Seq<char>>
    decreases ts.len() - pos, 4nat,
{
    match list_spec(ts, pos, depth) {
        Err(m) => Err(m),
        Ok((projection, p1)) => if !(pos <= p1 <= ts.len()) {
            Err("parser made no progress"@)
        } else {
            match clause_spec(ts, p1, "FROM"@, depth) {
                Err(m) => Err(m),
                Ok((relation, p2)) => if !(p1 <= p2 <= ts.len()) {
                    Err("parser made no progress"@)
                } else {
                    match clause_spec(ts, p2, "WHERE"@, depth) {
                        Err(m) => Err(m),
                        Ok((selection, p3)) => if p3 < ts.len() {
                            Err("unexpected trailing token at end of SELECT"@)
                        } else {
                            Ok(
                                (
                                    Ast::Select {
                                        projection,
                                        selection,
                                        relation,
                                        limit: None,
                                        order: None,
                                    },
                                    p3,
                                ),
                            )
                        },
                    }
                },
            }
        },
    }
}

/// The tree of a whole token sequence.
pub open spec fn parse_spec(ts: Seq<SpecToken>, depth: nat) -> Result<Ast, Seq<char>> {
    match expr_spec(ts, 0, 0, depth) {
        Ok((a, _)) => Ok(a),
        Err(m) => Err(m),
    }
}

} // verus!

verus! {

pub proof fn lemma_digits_value_nonneg(s: Seq<char>)
    requires
        forall|j: int| 0 <= j < s.len() ==> '0' <= #[trigger] s[j] <= '9',
    ensures
        digits_value(s) >= 0,
    decreases s.len(),
{
    if s.len() > 0 {
        lemma_digits_value_nonneg(s.drop_last());
    }
}

/// Over digits, a prefix never has a larger value than the whole.
pub proof fn lemma_digits_value_prefix(s: Seq<char>, i: int)
    requires
        0 <= i <= s.len(),
        forall|j: int| 0 <= j < s.len() ==> '0' <= #[trigger] s[j] <= '9',
    ensures
        digits_value(s.subrange(0, i)) <= digits_value(s),
    decreases s.len(),
{
    if i < s.len() {
        let d = s.drop_last();
        assert(d.subrange(0, i) =~= s.subrange(0, i));
        lemma_digits_value_prefix(d, i);
        lemma_digits_value_nonneg(d);
    } else {
        assert(s.subrange(0, i) =~= s);
    }
}

/// The value of the digits `s`, where it fits in an `i64`.
fn parse_number(s: &str) -> (r: Option<i64>)
    ensures
        match number_value(s@) {
            Some(v) => r == Some(v as i64),
            None => r is None,
        },
{
    let n = s.unicode_len();
    if n == 0 {
        return None;
    }
    let mut i: usize = 0;
    while i < n
        invariant
            n == s@.len(),
            i <= n,
            forall|j: int| 0 <= j < i ==> '0' <= #[trigger] s@[j] <= '9',
        decreases n - i,
    {
        let c = s.get_char(i);
        if !('0' <= c && c <= '9') {
            return None;
        }
        i = i + 1;
    }
    let mut acc: i64 = 0;
    let mut i: usize = 0;
    while i < n
        invariant
            n == s@.len(),
            i <= n,
            forall|j: int| 0 <= j < n ==> '0' <= #[trigger] s@[j] <= '9',
            acc == digits_value(s@.subrange(0, i as int)),
        decreases n - i,
    {
        let c = s.get_char(i);
        let d = (c as u32 - '0' as u32) as i64;
        assert(s@.subrange(0, i + 1).drop_last() =~= s@.subrange(0, i as int));
        proof {
            lemma_digits_value_nonneg(s@.subrange(0, i as int));
        }
        if acc > (i64::MAX - d) / 10 {
            proof {
                assert(acc * 10 + d > i64::MAX) by (nonlinear_arith)
                    requires
                        acc > (i64::MAX - d) / 10,
                        0 <= d <= 9,
                ;
                lemma_digits_value_prefix(s@, i + 1);
            }
            return None;
        }
        assert(acc * 10 + d <= i64::MAX) by (nonlinear_arith)
            requires
                acc <= (i64::MAX - d) / 10,
                0 <= d <= 9,
                acc >= 0,
        ;
        acc = acc * 10 + d;
        i = i + 1;
    }
    assert(s@.subrange(0, n as int) =~= s@);
    Some(acc)
}

/// How deeply expressions may nest unless a parser is given another bound.
pub const DEFAULT_MAX_DEPTH: usize = 128;

/// Builds a tree from a sequence of tokens.
pub struct Parser {
    tokens: Vec<Token>,
    index: usize,
    max_depth: usize,
}

/// An error of the parser with the given message.
fn parse_error(m: &str) -> (r: ParserError)
    ensures
        r matches ParserError::ParserError(s) && s@ == m@,
{
    ParserError::ParserError(String::from_str(m))
}

/// An error of the parser whose message is `m` followed by the text of `t`.
fn token_error(m: &str, t: &Token) -> (r: ParserError)
    ensures
        r matches ParserError::ParserError(s) && s@ == m@ + token_text(t@),
{
    let mut s = String::from_str(m);
    let text = t.text();
    s.append(text.as_str());
    ParserError::ParserError(s)
}

impl Parser {
    /// The models of the tokens being parsed.
    pub closed spec fn token_seq(&self) -> Seq<SpecToken> {
        tokens_view(self.tokens@)
    }

    /// The position of the next token to be read.
    pub closed spec fn position(&self) -> int {
        self.index as int
    }

    /// How deeply expressions may nest; deeper input fails to parse.
    pub closed spec fn depth_limit(&self) -> nat {
        self.max_depth as nat
    }

    /// The position never passes the end of the tokens.
    pub closed spec fn wf(&self) -> bool {
        self.index <= self.tokens@.len()
    }

    /// A parser at the first of `tokens`, with the default bound on nesting.
    pub fn new(tokens: Vec<Token>) -> (r: Parser)
        ensures
            r.wf(),
            r.token_seq() == tokens_view(tokens@),
            r.position() == 0,
            r.depth_limit() == DEFAULT_MAX_DEPTH,
    {
        Parser { tokens: tokens, index: 0, max_depth: DEFAULT_MAX_DEPTH }
    }

    /// A parser at the first of `tokens`, where expressions may nest at most
    /// `max_depth` deep.
    pub fn with_max_depth(tokens: Vec<Token>, max_depth: usize) -> (r: Parser)
        ensures
            r.wf(),
            r.token_seq() == tokens_view(tokens@),
            r.position() == 0,
            r.depth_limit() == max_depth,
    {
        Parser { tokens: tokens, index: 0, max_depth: max_depth }
    }

    /// Scans `sql` and parses its tokens with the default bound on nesting;
    /// reports the first failure of either stage.
    pub fn parse_sql(sql: String) -> (r: Result<ASTNode, ParserError>)
        ensures
            match scan(sql@) {
                Err(c) => r matches Err(ParserError::TokenizerError(m)) && m@ == unhandled_message(
                    c,
                ),
                Ok(ts) => match parse_spec(ts, DEFAULT_MAX_DEPTH as nat) {
                    Ok(a) => r matches Ok(n) && n@ == a,
                    Err(m) => r matches Err(ParserError::ParserError(e)) && e@ == m,
                },
            },
    {
        let mut tokenizer = Tokenizer { query: sql };
        match tokenizer.tokenize() {
            Err(e) => Err(e),
            Ok(tokens) => {
                let mut parser = Parser::new(tokens);
                parser.parse()
            },
        }
    }

    /// Parses one expression from the current position.
    pub fn parse(&mut self) -> (r: Result<ASTNode, ParserError>)
        requires
            old(self).wf(),
        ensures
            final(self).wf(),
            final(self).token_seq() == old(self).token_seq(),
            old(self).position() <= final(self).position(),
            match expr_spec(
                old(self).token_seq(),
                old(self).position(),
                0,
                old(self).depth_limit(),
            ) {
                Ok((a, p)) => r matches Ok(n) && n@ == a && final(self).position() == p,
                Err(m) => r matches Err(ParserError::ParserError(e)) && e@ == m,
            },
    {
        self.parse_expr(0, self.max_depth)
    }

    /// The token at the current position, without consuming it.
    fn peek_token(&self) -> (r: Option<Token>)
        ensures
            r == if self.index < self.tokens@.len() {
                Some(self.tokens@[self.index as int])
            } else {
                None::<Token>
            },
    {
        if self.index < self.tokens.len() {
            Some(self.tokens[self.index].duplicate())
        } else {
            None
        }
    }

    /// The token at the current position, which is consumed.
    fn next_token(&mut self) -> (r: Option<Token>)
        ensures
            final(self).tokens == old(self).tokens,
            if old(self).index < old(self).tokens@.len() {
                r == Some(old(self).tokens@[old(self).index as int]) && final(self).index
                    == old(self).index + 1
            } else {
                r is None && final(self).index == old(self).index
            },
    {
        if self.index < self.tokens.len() {
            self.index = self.index + 1;
            Some(self.tokens[self.index - 1].duplicate())
        } else {
            None
        }
    }

    /// How tightly `tok` binds as an infix operator.
    fn get_precedence(&self, tok: &Token) -> (r: u8)
        ensures
            r == precedence(tok@),
    {
        match tok {
            Token::Eq | Token::Lt | Token::LtEq | Token::Neq | Token::Gt | Token::GtEq => 20,
            Token::Plus | Token::Minus => 30,
            Token::Mult | Token::Div => 40,
            _ => 0,
        }
    }

    /// The operator that `tok` denotes.
    fn to_sql_operator(&self, tok: &Token) -> (r: Result<SQLOperator, ParserError>)
        ensures
            match operator_of(tok@) {
                Some(op) => r matches Ok(o) && o == op,
                None => r matches Err(ParserError::ParserError(e)) && e@ == "unsupported operator"@,
            },
    {
        match tok {
            Token::Eq => Ok(SQLOperator::EQ),
            Token::Neq => Ok(SQLOperator::NEQ),
            Token::Lt => Ok(SQLOperator::LT),
            Token::LtEq => Ok(SQLOperator::LTEQ),
            Token::Gt => Ok(SQLOperator::GT),
            Token::GtEq => Ok(SQLOperator::GTEQ),
            Token::Plus => Ok(SQLOperator::PLUS),
            Token::Minus => Ok(SQLOperator::MINUS),
            Token::Mult => Ok(SQLOperator::MULT),
            Token::Div => Ok(SQLOperator::DIV),
            _ => Err(parse_error("unsupported operator")),
        }
    }

    /// Consumes the next token where it is the keyword `expected`, in any case.
    fn parse_keyword(&mut self, expected: &str) -> (r: bool)
        requires
            old(self).wf(),
        ensures
            final(self).wf(),
            final(self).tokens == old(self).tokens,
            r == keyword_at(old(self).token_seq(), old(self).index as int, expected@),
            final(self).index == if r {
                old(self).index + 1
            } else {
                old(self).index as int
            },
    {
        if self.index < self.tokens.len() {
            let found = match &self.tokens[self.index] {
                Token::Keyword(k) => ci_equal(k.as_str(), expected),
                _ => false,
            };
            if found {
                self.index = self.index + 1;
            }
            found
        } else {
            false
        }
    }
}

} // verus!

verus! {

impl Parser {
    /// One expression whose operators all bind tighter than `precedence`.
    fn parse_expr(&mut self, precedence: u8, depth: usize) -> (r: Result<ASTNode, ParserError>)
        requires
            old(self).wf(),
        ensures
            final(self).wf(),
            final(self).tokens == old(self).tokens,
            old(self).index <= final(self).index,
            r is Ok ==> old(self).index < final(self).index,
            match expr_spec(old(self).token_seq(), old(self).index as int, precedence, depth as nat) {
                Ok((a, p)) => r matches Ok(n) && n@ == a && final(self).index == p,
                Err(m) => r matches Err(ParserError::ParserError(e)) && e@ == m,
            },
        decreases old(self).tokens@.len() - old(self).index, 2nat,
    {
        let ghost ts = self.token_seq();
        let ghost toks = self.tokens;
        let ghost pos = self.index as int;
        if depth == 0 {
            return Err(parse_error("expressions nest too deeply"));
        }
        let mut expr = match self.parse_prefix(depth - 1) {
            Err(e) => {
                return Err(e);
            },
            Ok(n) => n,
        };
        loop
            invariant
                self.wf(),
                self.token_seq() == ts,
                self.tokens == toks,
                toks == old(self).tokens,
                pos == old(self).index,
                ts == tokens_view(toks@),
                pos < self.index,
                expr_spec(ts, pos, precedence, depth as nat) == tail_spec(
                    ts,
                    expr@,
                    self.index as int,
                    precedence,
                    (depth - 1) as nat,
                ),
                depth > 0,
            decreases self.tokens@.len() - self.index,
        {
            let tok = match self.peek_token() {
                None => {
                    return Ok(expr);
                },
                Some(t) => t,
            };
            let next_precedence = self.get_precedence(&tok);
            if precedence >= next_precedence {
                return Ok(expr);
            }
            match self.parse_infix(expr, precedence, depth - 1) {
                Err(e) => {
                    return Err(e);
                },
                Ok(n) => {
                    expr = n;
                },
            }
        }
    }

    /// The operator at the current position applied to `expr` and the
    /// expression after the operator.
    fn parse_infix(&mut self, expr: ASTNode, precedence: u8, depth: usize) -> (r: Result<ASTNode, ParserError>)
        requires
            old(self).wf(),
        ensures
            final(self).wf(),
            final(self).tokens == old(self).tokens,
            old(self).index <= final(self).index,
            r is Ok ==> old(self).index < final(self).index,
            match infix_spec(old(self).token_seq(), expr@, old(self).index as int, precedence, depth as nat) {
                Ok((a, p)) => r matches Ok(n) && n@ == a && final(self).index == p,
                Err(m) => r matches Err(ParserError::ParserError(e)) && e@ == m,
            },
        decreases old(self).tokens@.len() - old(self).index, 0nat,
    {
        match self.next_token() {
            Some(tok) => match tok {
                Token::Eq | Token::Gt => {
                    let op = match self.to_sql_operator(&tok) {
                        Err(e) => {
                            return Err(e);
                        },
                        Ok(o) => o,
                    };
                    match self.parse_expr(precedence, depth) {
                        Err(e) => Err(e),
                        Ok(right) => Ok(
                            ASTNode::SQLBinaryExpr { left: Box::new(expr), op, right: Box::new(right) },
                        ),
                    }
                },
                _ => Err(token_error("no infix rule for token ", &tok)),
            },
            None => Err(parse_error("infix rule hit end of input")),
        }
    }

    /// The expression that begins at the current position, before any infix operator.
    fn parse_prefix(&mut self, depth: usize) -> (r: Result<ASTNode, ParserError>)
        requires
            old(self).wf(),
        ensures
            final(self).wf(),
            final(self).tokens == old(self).tokens,
            old(self).index <= final(self).index,
            r is Ok ==> old(self).index < final(self).index,
            match prefix_spec(old(self).token_seq(), old(self).index as int, depth as nat) {
                Ok((a, p)) => r matches Ok(n) && n@ == a && final(self).index == p,
                Err(m) => r matches Err(ParserError::ParserError(e)) && e@ == m,
            },
        decreases old(self).tokens@.len() - old(self).index, 1nat,
    {
        let ghost ts = self.token_seq();
        let ghost pos = self.index as int;
        match self.next_token() {
            Some(t) => match t {
                Token::Keyword(k) => {
                    if ci_equal(k.as_str(), "SELECT") {
                        self.parse_select(depth)
                    } else {
                        let mut m = String::from_str("no prefix rule for keyword ");
                        m.append(k.as_str());
                        Err(ParserError::ParserError(m))
                    }
                },
                Token::Identifier(id) => {
                    let call = match self.peek_token() {
                        Some(Token::LParen) => true,
                        _ => false,
                    };
                    if call {
                        self.next_token();
                        let args = match self.parse_expr_list(depth) {
                            Err(e) => {
                                return Err(e);
                            },
                            Ok(a) => a,
                        };
                        let ghost p = self.index as int;
                        let closing = self.next_token();
                        assert(p < ts.len() ==> ts[p] == closing->Some_0@);
                        match closing {
                            Some(Token::RParen) => Ok(ASTNode::SQLFunction { id, args }),
                            _ => Err(parse_error("expected ')' after function arguments")),
                        }
                    } else {
                        let r = ASTNode::SQLIdentifier { id: id, parts: Vec::new() };
                        assert(r@ matches Ast::Identifier { parts, .. } && parts =~= Seq::empty());
                        Ok(r)
                    }
                },
                Token::Number(n) => {
                    proof {
                        if number_value(n@) is Some {
                            lemma_digits_value_nonneg(n@);
                        }
                    }
                    match parse_number(n.as_str()) {
                    Some(v) => Ok(ASTNode::SQLLiteralInt(v)),
                    None => Err(parse_error("invalid integer literal")),
                }},
                _ => Err(token_error("no prefix rule for token ", &t)),
            },
            None => Err(parse_error("prefix rule hit end of input")),
        }
    }

    /// An optional clause that begins with the keyword `word`.
    fn parse_clause(&mut self, word: &str, depth: usize) -> (r: Result<Option<Box<ASTNode>>, ParserError>)
        requires
            old(self).wf(),
        ensures
            final(self).wf(),
            final(self).tokens == old(self).tokens,
            old(self).index <= final(self).index,
            match clause_spec(old(self).token_seq(), old(self).index as int, word@, depth as nat) {
                Ok((a, p)) => r matches Ok(o) && opt_view(o) == a && final(self).index == p,
                Err(m) => r matches Err(ParserError::ParserError(e)) && e@ == m,
            },
        decreases old(self).tokens@.len() - old(self).index, 3nat,
    {
        if self.parse_keyword(word) {
            match self.parse_expr(0, depth) {
                Err(e) => Err(e),
                Ok(n) => Ok(Some(Box::new(n))),
            }
        } else {
            Ok(None)
        }
    }

    /// The rest of a select statement, whose keyword has been consumed.
    fn parse_select(&mut self, depth: usize) -> (r: Result<ASTNode, ParserError>)
        requires
            old(self).wf(),
        ensures
            final(self).wf(),
            final(self).tokens == old(self).tokens,
            old(self).index <= final(self).index,
            r is Ok ==> old(self).index < final(self).index,
            match select_spec(old(self).token_seq(), old(self).index as int, depth as nat) {
                Ok((a, p)) => r matches Ok(n) && n@ == a && final(self).index == p,
                Err(m) => r matches Err(ParserError::ParserError(e)) && e@ == m,
            },
        decreases old(self).tokens@.len() - old(self).index, 4nat,
    {
        let projection = match self.parse_expr_list(depth) {
            Err(e) => {
                return Err(e);
            },
            Ok(p) => p,
        };
        let relation = match self.parse_clause("FROM", depth) {
            Err(e) => {
                return Err(e);
            },
            Ok(o) => o,
        };
        let selection = match self.parse_clause("WHERE", depth) {
            Err(e) => {
                return Err(e);
            },
            Ok(o) => o,
        };
        if self.index < self.tokens.len() {
            Err(parse_error("unexpected trailing token at end of SELECT"))
        } else {
            assert(opt_view(None) == None::<Box<Ast>>);
            Ok(
                ASTNode::SQLSelect {
                    projection: projection,
                    selection: selection,
                    relation: relation,
                    limit: None,
                    order: None,
                },
            )
        }
    }

    /// A comma-separated list of one or more expressions.
    fn parse_expr_list(&mut self, depth: usize) -> (r: Result<Vec<ASTNode>, ParserError>)
        requires
            old(self).wf(),
        ensures
            final(self).wf(),
            final(self).tokens == old(self).tokens,
            old(self).index <= final(self).index,
            r is Ok ==> old(self).index < final(self).index,
            match list_spec(old(self).token_seq(), old(self).index as int, depth as nat) {
                Ok((a, p)) => r matches Ok(v) && nodes_view(v) == a && final(self).index == p,
                Err(m) => r matches Err(ParserError::ParserError(e)) && e@ == m,
            },
        decreases old(self).tokens@.len() - old(self).index, 3nat,
    {
        let ghost ts = self.token_seq();
        let ghost toks = self.tokens;
        let ghost pos = self.index as int;
        let mut expr_list: Vec<ASTNode> = Vec::new();
        loop
            invariant
                self.wf(),
                self.token_seq() == ts,
                self.tokens == toks,
                toks == old(self).tokens,
                pos == old(self).index,
                ts == tokens_view(toks@),
                pos <= self.index,
                expr_list@.len() > 0 ==> pos < self.index,
                list_spec(ts, pos, depth as nat) == match list_spec(ts, self.index as int, depth as nat) {
                    Ok((rest, q)) => Ok((nodes_view(expr_list) + rest, q)),
                    Err(m) => Err::<(Seq<Ast>, int), Seq<char>>(m),
                },
            decreases self.tokens@.len() - self.index,
        {
            let ghost before = nodes_view(expr_list);
            let ghost at = self.index as int;
            let e = match self.parse_expr(0, depth) {
                Err(err) => {
                    return Err(err);
                },
                Ok(n) => n,
            };
            let ghost ev = e@;
            expr_list.push(e);
            assert(nodes_view(expr_list) =~= before + seq![ev]);
            let comma = match self.peek_token() {
                Some(Token::Comma) => true,
                _ => false,
            };
            if comma {
                self.next_token();
                proof {
                    match list_spec(ts, self.index as int, depth as nat) {
                        Ok((rest, q)) => {
                            assert(before + (seq![ev] + rest) =~= before + seq![ev] + rest);
                        },
                        Err(_) => {},
                    }
                }
            } else {
                return Ok(expr_list);
            }
        }
    }
}

} // verus!

verus! {

/// The infix operators that follow an expression leave it as it is or make
/// it the left side of a binary expression.
proof fn lemma_tail_shape(ts: Seq<SpecToken>, lhs: Ast, pos: int, min: u8, depth: nat)
    ensures
        tail_spec(ts, lhs, pos, min, depth) matches Ok((e, _)) ==> e == lhs || e is Binary,
    decreases ts.len() - pos,
{
    if !(pos < 0 || pos >= ts.len() || precedence(ts[pos]) <= min) {
        match infix_spec(ts, lhs, pos, min, depth) {
            Ok((e, p)) => if advanced(ts, pos, p) {
                lemma_tail_shape(ts, e, p, min, depth);
            },
            Err(_) => {},
        }
    }
}

/// A select statement parses only where it runs to the last token, and its
/// projection then holds at least one expression.
pub proof fn lemma_select_complete(ts: Seq<SpecToken>, pos: int, depth: nat)
    ensures
        select_spec(ts, pos, depth) matches Ok((a, p)) ==> p == ts.len() && (a matches Ast::Select {
            projection,
            ..
        } && projection.len() >= 1),
{
    if let Ok((a, p)) = select_spec(ts, pos, depth) {
        let (proj, p1) = list_spec(ts, pos, depth)->Ok_0;
        let (rel, p2) = clause_spec(ts, p1, "FROM"@, depth)->Ok_0;
        let (sel, p3) = clause_spec(ts, p2, "WHERE"@, depth)->Ok_0;
        lemma_clause_bounded(ts, p2, "WHERE"@, depth);
        assert(proj.len() >= 1);
    }
}

proof fn lemma_expr_bounded(ts: Seq<SpecToken>, pos: int, min: u8, depth: nat)
    ensures
        expr_spec(ts, pos, min, depth) matches Ok((_, p)) ==> p <= ts.len(),
    decreases ts.len() - pos, 2nat,
{
    if depth > 0 {
        if let Ok((lhs, p)) = prefix_spec(ts, pos, (depth - 1) as nat) {
            if advanced(ts, pos, p) {
                lemma_tail_bounded(ts, lhs, p, min, (depth - 1) as nat);
            }
        }
    }
}

proof fn lemma_tail_bounded(ts: Seq<SpecToken>, lhs: Ast, pos: int, min: u8, depth: nat)
    requires
        pos <= ts.len(),
    ensures
        tail_spec(ts, lhs, pos, min, depth) matches Ok((_, p)) ==> p <= ts.len(),
    decreases ts.len() - pos,
{
    if !(pos < 0 || pos >= ts.len() || precedence(ts[pos]) <= min) {
        if let Ok((e, p)) = infix_spec(ts, lhs, pos, min, depth) {
            if advanced(ts, pos, p) {
                lemma_tail_bounded(ts, e, p, min, depth);
            }
        }
    }
}

proof fn lemma_clause_bounded(ts: Seq<SpecToken>, pos: int, word: Seq<char>, depth: nat)
    requires
        pos <= ts.len(),
    ensures
        clause_spec(ts, pos, word, depth) matches Ok((_, p)) ==> p <= ts.len(),
{
    if keyword_at(ts, pos, word) {
        lemma_expr_bounded(ts, pos + 1, 0, depth);
    }
}

/// Where a whole token sequence parses to a select statement, its projection
/// holds at least one expression.
pub proof fn lemma_parsed_select_nonempty(ts: Seq<SpecToken>, depth: nat)
    ensures
        parse_spec(ts, depth) matches Ok(Ast::Select { projection, .. }) ==> projection.len() >= 1,
{
    if depth > 0 {
        if let Ok((lhs, p)) = prefix_spec(ts, 0, (depth - 1) as nat) {
            lemma_tail_shape(ts, lhs, p, 0, (depth - 1) as nat);
            lemma_select_complete(ts, 1, (depth - 1) as nat);
        }
    }
}

/// An operator token that binds but has no infix rule (all but `=` and `>`)
/// makes the expression before it fail to parse.
pub proof fn lemma_operator_without_infix_rule(
    ts: Seq<SpecToken>,
    lhs: Ast,
    pos: int,
    min: u8,
    depth: nat,
)
    requires
        0 <= pos < ts.len(),
        precedence(ts[pos]) > min,
        !has_infix_rule(ts[pos]),
    ensures
        tail_spec(ts, lhs, pos, min, depth) is Err,
{
    assert(infix_spec(ts, lhs, pos, min, depth) is Err);
}

} // verus!
