//! Properties of the scanner: how the tokens of a query depend on its text.
use vstd::prelude::*;

use crate::token::SpecToken;
use crate::tokenizer::{
    ci_eq_char, ci_match, is_digit, is_keyword, is_letter, is_space, is_word_char, is_word_start,
    lemma_token_end_bounds, run_end, scan, scan_from, token_at, token_end,
};

verus! {

/// A run that starts inside the suffix of `s` from `i` ends at the same
/// place, counted from `i`, as in that suffix alone.
proof fn lemma_run_end_shift(s: Seq<char>, i: int, j: int, digits: bool)
    requires
        0 <= i <= s.len(),
        0 <= j <= s.len() - i,
    ensures
        run_end(s, i + j, digits) == i + run_end(s.subrange(i, s.len() as int), j, digits),
    decreases s.len() - i - j,
{
    let t = s.subrange(i, s.len() as int);
    if j < t.len() && (if digits {
        is_digit(t[j])
    } else {
        is_word_char(t[j])
    }) {
        lemma_run_end_shift(s, i, j + 1, digits);
    }
}

/// Scanning from position `i + j` of `s` gives what scanning from `j` of the
/// suffix of `s` from `i` gives.
proof fn lemma_scan_shift(s: Seq<char>, i: int, j: int)
    requires
        0 <= i <= s.len(),
        0 <= j <= s.len() - i,
    ensures
        scan_from(s, i + j) == scan_from(s.subrange(i, s.len() as int), j),
    decreases s.len() - i - j,
{
    let t = s.subrange(i, s.len() as int);
    if j < t.len() {
        lemma_run_end_shift(s, i, j + 1, false);
        lemma_run_end_shift(s, i, j + 1, true);
        lemma_token_end_bounds(t, j);
        assert(token_end(s, i + j) == i + token_end(t, j));
        assert(s.subrange(i + j, token_end(s, i + j)) =~= t.subrange(j, token_end(t, j)));
        assert(token_at(s, i + j) == token_at(t, j));
        lemma_scan_shift(s, i, token_end(t, j));
    }
}

/// Scanning from position `i` is scanning the text that remains there.
pub proof fn lemma_scan_suffix(s: Seq<char>, i: int)
    requires
        0 <= i <= s.len(),
    ensures
        scan_from(s, i) == scan(s.subrange(i, s.len() as int)),
{
    lemma_scan_shift(s, i, 0);
}

/// `t` in front of the outcome `r` of a scan.
pub open spec fn prepend(t: SpecToken, r: Result<Seq<SpecToken>, char>) -> Result<
    Seq<SpecToken>,
    char,
> {
    match r {
        Ok(ts) => Ok(seq![t] + ts),
        Err(c) => Err(c),
    }
}

/// The two-character operators `<=`, `<>` and `>=` are one token each, and a
/// `<` before a letter is a token of its own.
pub proof fn lemma_operators_greedy(s: Seq<char>, c: char)
    ensures
        scan(seq!['<', '='] + s) == prepend(SpecToken::LtEq, scan(s)),
        scan(seq!['<', '>'] + s) == prepend(SpecToken::Neq, scan(s)),
        scan(seq!['>', '='] + s) == prepend(SpecToken::GtEq, scan(s)),
        is_letter(c) ==> scan(seq!['<', c] + s) == prepend(SpecToken::Lt, scan(seq![c] + s)),
{
    let a = seq!['<', '='] + s;
    let b = seq!['<', '>'] + s;
    let d = seq!['>', '='] + s;
    let e = seq!['<', c] + s;
    lemma_scan_suffix(a, 2);
    lemma_scan_suffix(b, 2);
    lemma_scan_suffix(d, 2);
    lemma_scan_suffix(e, 1);
    assert(a.subrange(2, a.len() as int) =~= s);
    assert(b.subrange(2, b.len() as int) =~= s);
    assert(d.subrange(2, d.len() as int) =~= s);
    assert(e.subrange(1, e.len() as int) =~= seq![c] + s);
    assert(a[0] == '<' && a[1] == '=');
    assert(b[0] == '<' && b[1] == '>');
    assert(d[0] == '>' && d[1] == '=');
    assert(e[0] == '<' && e[1] == c);
}

/// Every character of `kw` is an upper-case letter.
pub open spec fn upper_word(kw: Seq<char>) -> bool {
    kw.len() > 0 && forall|j: int| 0 <= j < kw.len() ==> 'A' <= #[trigger] kw[j] <= 'Z'
}

proof fn lemma_ci_match_letters(w: Seq<char>, kw: Seq<char>)
    requires
        upper_word(kw),
        ci_match(w, kw),
    ensures
        w.len() > 0,
        forall|j: int| 0 <= j < w.len() ==> is_letter(#[trigger] w[j]),
{
    assert forall|j: int| 0 <= j < w.len() implies is_letter(#[trigger] w[j]) by {
        assert(ci_eq_char(w[j], kw[j]));
        assert('A' <= kw[j] <= 'Z');
    }
}

proof fn lemma_keywords_upper()
    ensures
        upper_word("SELECT"@),
        upper_word("FROM"@),
        upper_word("WHERE"@),
        upper_word("LIMIT"@),
        upper_word("ORDER"@),
        upper_word("GROUP"@),
        upper_word("BY"@),
        upper_word("UNION"@),
        upper_word("ALL"@),
        upper_word("UPDATE"@),
        upper_word("DELETE"@),
        upper_word("IN"@),
        upper_word("NOT"@),
        upper_word("NULL"@),
        upper_word("SET"@),
{
    reveal_strlit("SELECT");
    reveal_strlit("FROM");
    reveal_strlit("WHERE");
    reveal_strlit("LIMIT");
    reveal_strlit("ORDER");
    reveal_strlit("GROUP");
    reveal_strlit("BY");
    reveal_strlit("UNION");
    reveal_strlit("ALL");
    reveal_strlit("UPDATE");
    reveal_strlit("DELETE");
    reveal_strlit("IN");
    reveal_strlit("NOT");
    reveal_strlit("NULL");
    reveal_strlit("SET");
}

/// A reserved word is made of letters only.
proof fn lemma_keyword_letters(w: Seq<char>)
    requires
        is_keyword(w),
    ensures
        w.len() > 0,
        forall|j: int| 0 <= j < w.len() ==> is_letter(#[trigger] w[j]),
{
    lemma_keywords_upper();
    if ci_match(w, "SELECT"@) {
        lemma_ci_match_letters(w, "SELECT"@);
    } else if ci_match(w, "FROM"@) {
        lemma_ci_match_letters(w, "FROM"@);
    } else if ci_match(w, "WHERE"@) {
        lemma_ci_match_letters(w, "WHERE"@);
    } else if ci_match(w, "LIMIT"@) {
        lemma_ci_match_letters(w, "LIMIT"@);
    } else if ci_match(w, "ORDER"@) {
        lemma_ci_match_letters(w, "ORDER"@);
    } else if ci_match(w, "GROUP"@) {
        lemma_ci_match_letters(w, "GROUP"@);
    } else if ci_match(w, "BY"@) {
        lemma_ci_match_letters(w, "BY"@);
    } else if ci_match(w, "UNION"@) {
        lemma_ci_match_letters(w, "UNION"@);
    } else if ci_match(w, "ALL"@) {
        lemma_ci_match_letters(w, "ALL"@);
    } else if ci_match(w, "UPDATE"@) {
        lemma_ci_match_letters(w, "UPDATE"@);
    } else if ci_match(w, "DELETE"@) {
        lemma_ci_match_letters(w, "DELETE"@);
    } else if ci_match(w, "IN"@) {
        lemma_ci_match_letters(w, "IN"@);
    } else if ci_match(w, "NOT"@) {
        lemma_ci_match_letters(w, "NOT"@);
    } else if ci_match(w, "NULL"@) {
        lemma_ci_match_letters(w, "NULL"@);
    } else {
        lemma_ci_match_letters(w, "SET"@);
    }
}

/// A run of word characters from `j` to the end of `s` ends there.
proof fn lemma_run_to_end(s: Seq<char>, j: int)
    requires
        0 <= j <= s.len(),
        forall|k: int| j <= k < s.len() ==> is_word_char(#[trigger] s[k]),
    ensures
        run_end(s, j, false) == s.len(),
    decreases s.len() - j,
{
    if j < s.len() {
        lemma_run_to_end(s, j + 1);
    }
}

/// A word whose last character is a digit is no reserved word.
proof fn lemma_digit_ending_not_keyword(w: Seq<char>)
    requires
        w.len() > 0,
        is_digit(w.last()),
    ensures
        !is_keyword(w),
{
    if is_keyword(w) {
        lemma_keyword_letters(w);
        assert(is_letter(w[w.len() - 1]));
    }
}

/// A reserved word, in any case, scans as one keyword token that keeps its
/// text; followed by a digit, it scans as one identifier instead.
pub proof fn lemma_keyword_boundary(w: Seq<char>, d: char)
    requires
        is_keyword(w),
    ensures
        scan(w) == Ok::<Seq<SpecToken>, char>(seq![SpecToken::Keyword(w)]),
        is_digit(d) ==> scan(w.push(d)) == Ok::<Seq<SpecToken>, char>(
            seq![SpecToken::Identifier(w.push(d))],
        ),
{
    lemma_keyword_letters(w);
    lemma_run_to_end(w, 1);
    assert(w.subrange(0, w.len() as int) =~= w);
    assert(token_at(w, 0) == Some(SpecToken::Keyword(w)));
    assert(scan_from(w, w.len() as int) == Ok::<Seq<SpecToken>, char>(Seq::empty()));
    assert(seq![SpecToken::Keyword(w)] + Seq::<SpecToken>::empty() =~= seq![SpecToken::Keyword(w)]);
    if is_digit(d) {
        let v = w.push(d);
        assert forall|k: int| 1 <= k < v.len() implies is_word_char(#[trigger] v[k]) by {
            if k < w.len() {
                assert(v[k] == w[k]);
            }
        }
        lemma_run_to_end(v, 1);
        assert(v.subrange(0, v.len() as int) =~= v);
        lemma_digit_ending_not_keyword(v);
        assert(v[0] == w[0]);
        assert(token_at(v, 0) == Some(SpecToken::Identifier(v)));
        assert(scan_from(v, v.len() as int) == Ok::<Seq<SpecToken>, char>(Seq::empty()));
        assert(seq![SpecToken::Identifier(v)] + Seq::<SpecToken>::empty() =~= seq![
            SpecToken::Identifier(v),
        ]);
    }
}

/// A character that begins or continues some token.
pub open spec fn is_token_char(c: char) -> bool {
    is_space(c) || is_word_start(c) || is_digit(c) || c == ',' || c == '(' || c == ')' || c == '+'
        || c == '-' || c == '*' || c == '/' || c == '=' || c == '<' || c == '>'
}

proof fn lemma_run_end_stops(s: Seq<char>, j: int, k: int, digits: bool)
    requires
        0 <= j <= k < s.len(),
        !is_token_char(s[k]),
    ensures
        run_end(s, j, digits) <= k,
    decreases k - j,
{
    if j < k {
        lemma_run_end_stops(s, j + 1, k, digits);
    }
}

/// A character that begins no token makes the scan from any earlier token
/// boundary fail; where it is the first such character, the failure names it.
proof fn lemma_scan_stops_at(s: Seq<char>, i: int, k: int)
    requires
        0 <= i <= k < s.len(),
        !is_token_char(s[k]),
    ensures
        scan_from(s, i) is Err,
        (forall|j: int| i <= j < k ==> is_token_char(#[trigger] s[j])) ==> scan_from(s, i) == Err::<
            Seq<SpecToken>,
            char,
        >(s[k]),
    decreases k - i,
{
    if !is_token_char(s[i]) {
        assert(token_at(s, i) is None);
    } else {
        lemma_run_end_stops(s, i + 1, k, false);
        lemma_run_end_stops(s, i + 1, k, true);
        lemma_token_end_bounds(s, i);
        assert(token_end(s, i) <= k);
        assert(token_at(s, i) is Some);
        lemma_scan_stops_at(s, token_end(s, i), k);
    }
}

/// A query that holds `#` fails to scan; where every character before the
/// first `#` begins or continues a token, the failure names `#`.
pub proof fn lemma_unknown_char_rejected(s: Seq<char>, k: int)
    requires
        0 <= k < s.len(),
        s[k] == '#',
    ensures
        scan(s) is Err,
        (forall|j: int| 0 <= j < k ==> is_token_char(#[trigger] s[j])) ==> scan(s) == Err::<
            Seq<SpecToken>,
            char,
        >('#'),
{
    lemma_scan_stops_at(s, 0, k);
}

/// Where the run of characters other than whitespace that starts at `i` ends.
pub open spec fn word_end(s: Seq<char>, i: int) -> int
    decreases s.len() - i,
{
    if 0 <= i < s.len() && !is_space(s[i]) {
        word_end(s, i + 1)
    } else {
        i
    }
}

proof fn lemma_word_end_bounds(s: Seq<char>, i: int)
    requires
        0 <= i <= s.len(),
    ensures
        i <= word_end(s, i) <= s.len(),
        word_end(s, i) < s.len() ==> is_space(s[word_end(s, i)]),
    decreases s.len() - i,
{
    if i < s.len() && !is_space(s[i]) {
        lemma_word_end_bounds(s, i + 1);
    }
}

/// The pieces of `s` between whitespace, in order, with no empty piece.
pub open spec fn chunks(s: Seq<char>) -> Seq<Seq<char>>
    decreases s.len(),
    via chunks_decreases
{
    if s.len() == 0 {
        Seq::empty()
    } else if is_space(s[0]) {
        chunks(s.subrange(1, s.len() as int))
    } else {
        seq![s.subrange(0, word_end(s, 0))] + chunks(s.subrange(word_end(s, 0), s.len() as int))
    }
}

#[via_fn]
proof fn chunks_decreases(s: Seq<char>) {
    if s.len() > 0 && !is_space(s[0]) {
        lemma_word_end_bounds(s, 1);
    }
}

/// The tokens of `a` followed by those of `b`, or the first failure.
pub open spec fn join(a: Result<Seq<SpecToken>, char>, b: Result<Seq<SpecToken>, char>) -> Result<
    Seq<SpecToken>,
    char,
> {
    match a {
        Err(c) => Err(c),
        Ok(x) => match b {
            Ok(y) => Ok(x + y),
            Err(c) => Err(c),
        },
    }
}

/// The tokens of each piece in turn, or the first failure.
pub open spec fn scan_pieces(cs: Seq<Seq<char>>) -> Result<Seq<SpecToken>, char>
    decreases cs.len(),
{
    if cs.len() == 0 {
        Ok(Seq::empty())
    } else {
        join(scan(cs[0]), scan_pieces(cs.subrange(1, cs.len() as int)))
    }
}

/// A run inside `x` ends where it ends in a text that continues `x` with whitespace.
proof fn lemma_run_end_cut(s: Seq<char>, x: Seq<char>, j: int, digits: bool)
    requires
        0 <= j <= x.len() < s.len(),
        forall|k: int| 0 <= k < x.len() ==> s[k] == x[k],
        is_space(s[x.len() as int]),
    ensures
        run_end(s, j, digits) == run_end(x, j, digits),
        run_end(s, j, digits) <= x.len(),
    decreases x.len() - j,
{
    if j < x.len() {
        lemma_run_end_cut(s, x, j + 1, digits);
    }
}

/// Scanning a text that continues `x` with whitespace scans `x` first.
proof fn lemma_scan_cut(s: Seq<char>, x: Seq<char>, i: int)
    requires
        0 <= i <= x.len() < s.len(),
        forall|k: int| 0 <= k < x.len() ==> s[k] == x[k],
        is_space(s[x.len() as int]),
    ensures
        scan_from(s, i) == join(scan_from(x, i), scan_from(s, x.len() as int)),
    decreases x.len() - i,
{
    let m = x.len() as int;
    if i == m {
        if let Ok(b) = scan_from(s, m) {
            assert(Seq::<SpecToken>::empty() + b =~= b);
        }
    } else {
        lemma_run_end_cut(s, x, i + 1, false);
        lemma_run_end_cut(s, x, i + 1, true);
        lemma_token_end_bounds(s, i);
        let e = token_end(s, i);
        assert(e == token_end(x, i));
        assert(e <= m);
        assert(s.subrange(i, e) =~= x.subrange(i, e));
        assert(token_at(s, i) == token_at(x, i));
        lemma_scan_cut(s, x, e);
        if let Some(t) = token_at(s, i) {
            if let Ok(a) = scan_from(x, e) {
                if let Ok(b) = scan_from(s, m) {
                    assert(seq![t] + (a + b) =~= seq![t] + a + b);
                }
            }
        }
    }
}

/// Scanning a text is scanning its pieces between whitespace, one by one.
pub proof fn lemma_scan_by_pieces(s: Seq<char>)
    ensures
        scan(s) == scan_pieces(chunks(s)),
    decreases s.len(),
{
    if s.len() == 0 {
    } else if is_space(s[0]) {
        lemma_scan_suffix(s, 1);
        assert(token_at(s, 0) == Some(SpecToken::Whitespace));
        assert(scan(s) == scan_from(s, 1));
        lemma_scan_by_pieces(s.subrange(1, s.len() as int));
    } else {
        lemma_word_end_bounds(s, 1);
        let k = word_end(s, 0);
        let x = s.subrange(0, k);
        let rest = chunks(s.subrange(k, s.len() as int));
        assert((seq![x] + rest).subrange(1, rest.len() as int + 1) =~= rest);
        if k == s.len() {
            assert(x =~= s);
            assert(s.subrange(k, s.len() as int) =~= Seq::<char>::empty());
            if let Ok(a) = scan(s) {
                assert(a + Seq::<SpecToken>::empty() =~= a);
            }
        } else {
            let y = s.subrange(k + 1, s.len() as int);
            let t = s.subrange(k, s.len() as int);
            assert(t.subrange(1, t.len() as int) =~= y);
            assert(is_space(t[0]));
            assert(chunks(t) == chunks(y));
            lemma_scan_cut(s, x, 0);
            lemma_token_end_bounds(s, k);
            assert(token_at(s, k) == Some(SpecToken::Whitespace));
            assert(scan_from(s, k) == scan_from(s, k + 1));
            lemma_scan_suffix(s, k + 1);
            lemma_scan_by_pieces(y);
            assert(scan_pieces(chunks(s)) == join(scan(x), scan_pieces(rest)));
        }
    }
}

/// Two queries with the same pieces between whitespace, however much
/// whitespace of whatever kind stands before, between or after them, scan
/// alike.
pub proof fn lemma_whitespace_insensitive(s1: Seq<char>, s2: Seq<char>)
    requires
        chunks(s1) == chunks(s2),
    ensures
        scan(s1) == scan(s2),
{
    lemma_scan_by_pieces(s1);
    lemma_scan_by_pieces(s2);
}

} // verus!
