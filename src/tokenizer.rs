use vstd::prelude::*;
use vstd::std_specs::iter::IteratorSpec;
use vstd::string::*;

use crate::token::{tokens_view, ParserError, SpecToken, Token};

verus! {

pub open spec fn is_letter(c: char) -> bool {
    ('a' <= c && c <= 'z') || ('A' <= c && c <= 'Z')
}

pub open spec fn is_digit(c: char) -> bool {
    '0' <= c && c <= '9'
}

pub open spec fn is_space(c: char) -> bool {
    c == ' ' || c == '\t' || c == '\n'
}

/// A character that may begin an identifier or a keyword.
pub open spec fn is_word_start(c: char) -> bool {
    is_letter(c) || c == '_' || c == '@'
}

/// A character that may continue an identifier or a keyword.
pub open spec fn is_word_char(c: char) -> bool {
    is_letter(c) || is_digit(c) || c == '_'
}

/// The first position at or after `i` that does not continue a run of
/// digits (`digits`) or of word characters (otherwise).
pub open spec fn run_end(s: Seq<char>, i: int, digits: bool) -> int
    decreases s.len() - i,
{
    if 0 <= i < s.len() && (if digits {
        is_digit(s[i])
    } else {
        is_word_char(s[i])
    }) {
        run_end(s, i + 1, digits)
    } else {
        i
    }
}

/// `a` and `b` are the same character, ignoring ASCII case.
pub open spec fn ci_eq_char(a: char, b: char) -> bool {
    a == b || ('a' <= a && a <= 'z' && a as u32 == b as u32 + 32) || ('a' <= b && b <= 'z'
        && b as u32 == a as u32 + 32)
}

/// `w` and `kw` are the same word, ignoring ASCII case.
pub open spec fn ci_match(w: Seq<char>, kw: Seq<char>) -> bool {
    w.len() == kw.len() && forall|j: int| 0 <= j < w.len() ==> ci_eq_char(#[trigger] w[j], kw[j])
}

/// The reserved words of the language, matched without regard to case.
pub open spec fn is_keyword(w: Seq<char>) -> bool {
    ci_match(w, "SELECT"@) || ci_match(w, "FROM"@) || ci_match(w, "WHERE"@) || ci_match(
        w,
        "LIMIT"@,
    ) || ci_match(w, "ORDER"@) || ci_match(w, "GROUP"@) || ci_match(w, "BY"@) || ci_match(
        w,
        "UNION"@,
    ) || ci_match(w, "ALL"@) || ci_match(w, "UPDATE"@) || ci_match(w, "DELETE"@) || ci_match(
        w,
        "IN"@,
    ) || ci_match(w, "NOT"@) || ci_match(w, "NULL"@) || ci_match(w, "SET"@)
}

/// Where the token that starts at `i` ends.
pub open spec fn token_end(s: Seq<char>, i: int) -> int {
    let c = s[i];
    if is_space(c) {
        i + 1
    } else if is_word_start(c) {
        run_end(s, i + 1, false)
    } else if is_digit(c) {
        run_end(s, i + 1, true)
    } else if c == '<' && i + 1 < s.len() && (s[i + 1] == '=' || s[i + 1] == '>') {
        i + 2
    } else if c == '>' && i + 1 < s.len() && s[i + 1] == '=' {
        i + 2
    } else {
        i + 1
    }
}

/// The token that starts at `i`, or `None` where its character begins no token.
pub open spec fn token_at(s: Seq<char>, i: int) -> Option<SpecToken> {
    let c = s[i];
    let w = s.subrange(i, token_end(s, i));
    if is_space(c) {
        Some(SpecToken::Whitespace)
    } else if is_word_start(c) {
        if is_keyword(w) {
            Some(SpecToken::Keyword(w))
        } else {
            Some(SpecToken::Identifier(w))
        }
    } else if is_digit(c) {
        Some(SpecToken::Number(w))
    } else if c == ',' {
        Some(SpecToken::Comma)
    } else if c == '(' {
        Some(SpecToken::LParen)
    } else if c == ')' {
        Some(SpecToken::RParen)
    } else if c == '+' {
        Some(SpecToken::Plus)
    } else if c == '-' {
        Some(SpecToken::Minus)
    } else if c == '*' {
        Some(SpecToken::Mult)
    } else if c == '/' {
        Some(SpecToken::Div)
    } else if c == '=' {
        Some(SpecToken::Eq)
    } else if c == '<' {
        if i + 1 < s.len() && s[i + 1] == '=' {
            Some(SpecToken::LtEq)
        } else if i + 1 < s.len() && s[i + 1] == '>' {
            Some(SpecToken::Neq)
        } else {
            Some(SpecToken::Lt)
        }
    } else if c == '>' {
        if i + 1 < s.len() && s[i + 1] == '=' {
            Some(SpecToken::GtEq)
        } else {
            Some(SpecToken::Gt)
        }
    } else {
        None
    }
}

/// The tokens of `s` from position `i` on, whitespace left out; or the first
/// character that begins no token.
pub open spec fn scan_from(s: Seq<char>, i: int) -> Result<Seq<SpecToken>, char>
    decreases s.len() - i,
    when 0 <= i
    via scan_from_decreases
{
    if i >= s.len() {
        Ok(Seq::empty())
    } else {
        match token_at(s, i) {
            None => Err(s[i]),
            Some(t) => match scan_from(s, token_end(s, i)) {
                Ok(rest) => Ok(
                    if t is Whitespace {
                        rest
                    } else {
                        seq![t] + rest
                    },
                ),
                Err(c) => Err(c),
            },
        }
    }
}

/// The tokens of a whole query, whitespace left out.
pub open spec fn scan(s: Seq<char>) -> Result<Seq<SpecToken>, char> {
    scan_from(s, 0)
}

/// The message of the error for a character that begins no token.
pub open spec fn unhandled_message(c: char) -> Seq<char> {
    "unhandled char '"@ + seq![c] + "' in tokenizer"@
}

pub proof fn lemma_run_end_bounds(s: Seq<char>, i: int, digits: bool)
    requires
        0 <= i <= s.len(),
    ensures
        i <= run_end(s, i, digits) <= s.len(),
    decreases s.len() - i,
{
    if i < s.len() && (if digits {
        is_digit(s[i])
    } else {
        is_word_char(s[i])
    }) {
        lemma_run_end_bounds(s, i + 1, digits);
    }
}

pub proof fn lemma_token_end_bounds(s: Seq<char>, i: int)
    requires
        0 <= i < s.len(),
    ensures
        i < token_end(s, i) <= s.len(),
{
    lemma_run_end_bounds(s, i + 1, false);
    lemma_run_end_bounds(s, i + 1, true);
}

#[via_fn]
proof fn scan_from_decreases(s: Seq<char>, i: int) {
    if 0 <= i < s.len() {
        lemma_token_end_bounds(s, i);
    }
}

} // verus!

verus! {

/// Scans one query.
pub struct Tokenizer {
    pub query: String,
}

/// The characters of `s`, in order.
fn chars_of(s: &str) -> (r: Vec<char>)
    ensures
        r@ == s@,
{
    broadcast use vstd::string::group_string_axioms;

    let mut r: Vec<char> = Vec::new();
    let mut it = s.chars();
    loop
        invariant
            r@ + it.remaining() == s@,
            it.obeys_prophetic_iter_laws(),
            it.decrease() is Some,
        decreases it.decrease()->0,
    {
        match it.next() {
            Some(c) => {
                r.push(c);
                assert(r@ + it.remaining() =~= s@);
            },
            None => {
                assert(r@ =~= s@);
                return r;
            },
        }
    }
}

/// Whether `c` continues a run of digits (`digits`) or of word characters.
fn continues_run(c: char, digits: bool) -> (r: bool)
    ensures
        r == if digits {
            is_digit(c)
        } else {
            is_word_char(c)
        },
{
    if digits {
        '0' <= c && c <= '9'
    } else {
        ('a' <= c && c <= 'z') || ('A' <= c && c <= 'Z') || ('0' <= c && c <= '9') || c == '_'
    }
}

/// The end of the run of digits (`digits`) or word characters that starts at `i`.
fn scan_run(cs: &Vec<char>, i: usize, digits: bool) -> (r: usize)
    requires
        i <= cs@.len(),
    ensures
        r == run_end(cs@, i as int, digits),
{
    let mut j = i;
    while j < cs.len() && continues_run(cs[j], digits)
        invariant
            i <= j <= cs@.len(),
            run_end(cs@, i as int, digits) == run_end(cs@, j as int, digits),
        decreases cs@.len() - j,
    {
        j = j + 1;
    }
    j
}

/// Whether `w` and `kw` are the same word, ignoring ASCII case.
pub(crate) fn ci_equal(w: &str, kw: &str) -> (r: bool)
    ensures
        r == ci_match(w@, kw@),
{
    let n = kw.unicode_len();
    if w.unicode_len() != n {
        return false;
    }
    let mut j: usize = 0;
    while j < n
        invariant
            n == kw@.len(),
            n == w@.len(),
            j <= n,
            forall|k: int| 0 <= k < j ==> ci_eq_char(#[trigger] w@[k], kw@[k]),
        decreases n - j,
    {
        let a = w.get_char(j);
        let b = kw.get_char(j);
        if !(a == b || ('a' <= a && a <= 'z' && a as u32 == b as u32 + 32) || ('a' <= b && b <= 'z'
            && b as u32 == a as u32 + 32)) {
            return false;
        }
        j = j + 1;
    }
    true
}

/// Whether `w` is a reserved word.
fn is_keyword_text(w: &str) -> (r: bool)
    ensures
        r == is_keyword(w@),
{
    ci_equal(w, "SELECT") || ci_equal(w, "FROM") || ci_equal(w, "WHERE") || ci_equal(w, "LIMIT")
        || ci_equal(w, "ORDER") || ci_equal(w, "GROUP") || ci_equal(w, "BY") || ci_equal(
        w,
        "UNION",
    ) || ci_equal(w, "ALL") || ci_equal(w, "UPDATE") || ci_equal(w, "DELETE") || ci_equal(w, "IN")
        || ci_equal(w, "NOT") || ci_equal(w, "NULL") || ci_equal(w, "SET")
}

impl Tokenizer {
    /// The token that starts at position `i` and where it ends, or the
    /// error for a character that begins no token.
    fn next_token(&self, cs: &Vec<char>, i: usize) -> (r: Result<(Token, usize), ParserError>)
        requires
            cs@ == self.query@,
            i < cs@.len(),
        ensures
            match token_at(cs@, i as int) {
                Some(t) => r matches Ok((tok, e)) && tok@ == t && e == token_end(cs@, i as int),
                None => r matches Err(ParserError::TokenizerError(m)) && m@ == unhandled_message(
                    cs@[i as int],
                ),
            },
    {
        let ghost s = cs@;
        let n = cs.len();
        assert(i + 1 <= n);
        let c = cs[i];
        if c == ' ' || c == '\t' || c == '\n' {
            Ok((Token::Whitespace, i + 1))
        } else if ('a' <= c && c <= 'z') || ('A' <= c && c <= 'Z') || c == '_' || c == '@' {
            let e = scan_run(cs, i + 1, false);
            proof {
                lemma_run_end_bounds(s, i + 1, false);
            }
            let text = self.query.as_str().substring_char(i, e).to_owned();
            if is_keyword_text(text.as_str()) {
                Ok((Token::Keyword(text), e))
            } else {
                Ok((Token::Identifier(text), e))
            }
        } else if '0' <= c && c <= '9' {
            let e = scan_run(cs, i + 1, true);
            proof {
                lemma_run_end_bounds(s, i + 1, true);
            }
            let text = self.query.as_str().substring_char(i, e).to_owned();
            Ok((Token::Number(text), e))
        } else if c == ',' {
            Ok((Token::Comma, i + 1))
        } else if c == '(' {
            Ok((Token::LParen, i + 1))
        } else if c == ')' {
            Ok((Token::RParen, i + 1))
        } else if c == '+' {
            Ok((Token::Plus, i + 1))
        } else if c == '-' {
            Ok((Token::Minus, i + 1))
        } else if c == '*' {
            Ok((Token::Mult, i + 1))
        } else if c == '/' {
            Ok((Token::Div, i + 1))
        } else if c == '=' {
            Ok((Token::Eq, i + 1))
        } else if c == '<' {
            if i + 1 < cs.len() && cs[i + 1] == '=' {
                Ok((Token::LtEq, i + 2))
            } else if i + 1 < cs.len() && cs[i + 1] == '>' {
                Ok((Token::Neq, i + 2))
            } else {
                Ok((Token::Lt, i + 1))
            }
        } else if c == '>' {
            if i + 1 < cs.len() && cs[i + 1] == '=' {
                Ok((Token::GtEq, i + 2))
            } else {
                Ok((Token::Gt, i + 1))
            }
        } else {
            let mut m = String::from_str("unhandled char '");
            m.append(self.query.as_str().substring_char(i, i + 1));
            m.append("' in tokenizer");
            proof {
                assert(s.subrange(i as int, i + 1) =~= seq![c]);
            }
            Err(ParserError::TokenizerError(m))
        }
    }

    /// The tokens of the query, whitespace left out, or the error for the
    /// first character that begins no token.
    pub fn tokenize(&mut self) -> (r: Result<Vec<Token>, ParserError>)
        ensures
            *final(self) == *old(self),
            match scan(old(self).query@) {
                Ok(ts) => r matches Ok(v) && tokens_view(v@) == ts,
                Err(c) => r matches Err(ParserError::TokenizerError(m)) && m@ == unhandled_message(c),
            },
    {
        let cs = chars_of(self.query.as_str());
        let ghost s = cs@;
        let mut out: Vec<Token> = Vec::new();
        let mut i: usize = 0;
        while i < cs.len()
            invariant
                s == cs@,
                s == self.query@,
                i <= s.len(),
                scan(s) == match scan_from(s, i as int) {
                    Ok(rest) => Ok(tokens_view(out@) + rest),
                    Err(c) => Err::<Seq<SpecToken>, char>(c),
                },
            decreases s.len() - i,
        {
            proof {
                lemma_token_end_bounds(s, i as int);
            }
            match self.next_token(&cs, i) {
                Err(e) => {
                    return Err(e);
                },
                Ok((tok, e)) => {
                    let ghost before = tokens_view(out@);
                    let ghost t = tok@;
                    if !(tok matches Token::Whitespace) {
                        out.push(tok);
                        proof {
                            assert(tokens_view(out@) =~= before + seq![t]);
                            match scan_from(s, e as int) {
                                Ok(rest) => {
                                    assert(before + seq![t] + rest =~= before + (seq![t] + rest));
                                },
                                Err(_) => {},
                            }
                        }
                    }
                    i = e;
                },
            }
        }
        proof {
            assert(tokens_view(out@) + Seq::<SpecToken>::empty() =~= tokens_view(out@));
        }
        Ok(out)
    }
}

} // verus!
