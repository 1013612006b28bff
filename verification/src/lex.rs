//! Markup tokens and the markup lexer.
//!
//! The lexer is a total, single left-to-right scan: whitespace separates
//! tokens and is never emitted; a literal `<!DOCTYPE html>` at the current
//! position is skipped verbatim; `<`, `>`, `/`, `=` are single-character
//! tokens; `"..."` yields a quoted-text token holding everything up to the
//! next quote (possibly empty); any other run of non-whitespace, non-quote
//! characters other than `<`, `>`, `=` yields a bare-text token.
use vstd::prelude::*;

use crate::strutil::{chars_of, is_space, is_space_char, push_char, str_eq, string_from_range};

verus! {

/// A markup token.
#[derive(Debug, PartialEq, Eq)]
pub enum Token {
    LAngle,
    RAngle,
    Slash,
    Equal,
    Text(String),
    QuotedText(String),
}

/// The model of a markup token.
pub enum TokModel {
    LAngle,
    RAngle,
    Slash,
    Equal,
    Text(Seq<char>),
    QuotedText(Seq<char>),
}

pub open spec fn deep_tok(t: Token) -> TokModel {
    match t {
        Token::LAngle => TokModel::LAngle,
        Token::RAngle => TokModel::RAngle,
        Token::Slash => TokModel::Slash,
        Token::Equal => TokModel::Equal,
        Token::Text(s) => TokModel::Text(s@),
        Token::QuotedText(s) => TokModel::QuotedText(s@),
    }
}

pub open spec fn deep_toks(s: Seq<Token>) -> Seq<TokModel> {
    s.map_values(|t: Token| deep_tok(t))
}

/// A copy of a token, character for character.
pub fn clone_token(t: &Token) -> (r: Token)
    ensures
        deep_tok(r) == deep_tok(*t),
{
    match t {
        Token::LAngle => Token::LAngle,
        Token::RAngle => Token::RAngle,
        Token::Slash => Token::Slash,
        Token::Equal => Token::Equal,
        Token::Text(s) => Token::Text(s.clone()),
        Token::QuotedText(s) => Token::QuotedText(s.clone()),
    }
}

/// Whether two tokens hold the same variant and the same characters.
pub fn token_eq(a: &Token, b: &Token) -> (r: bool)
    ensures
        r == (deep_tok(*a) == deep_tok(*b)),
{
    match (a, b) {
        (Token::LAngle, Token::LAngle) => true,
        (Token::RAngle, Token::RAngle) => true,
        (Token::Slash, Token::Slash) => true,
        (Token::Equal, Token::Equal) => true,
        (Token::Text(x), Token::Text(y)) => str_eq(x.as_str(), y.as_str()),
        (Token::QuotedText(x), Token::QuotedText(y)) => str_eq(x.as_str(), y.as_str()),
        _ => false,
    }
}

/// The verbatim prefix that the lexer skips.
pub open spec fn doctype_chars() -> Seq<char> {
    "<!DOCTYPE html>"@
}

/// A character that may stand inside a bare-text run: anything but
/// whitespace, the `<`, `>`, `=` delimiters and the quote that opens a
/// quoted value.
pub open spec fn is_text_char(c: char) -> bool {
    !is_space_char(c) && c != '<' && c != '>' && c != '=' && c != '"'
}

/// The first position at or after `i` holding a quote, or the end.
pub open spec fn scan_quote_end(cs: Seq<char>, i: int) -> int
    decreases cs.len() - i,
{
    if i >= cs.len() {
        cs.len() as int
    } else if cs[i] == '"' {
        i
    } else {
        scan_quote_end(cs, i + 1)
    }
}

/// The first position at or after `i` where a bare-text run ends, or the end.
pub open spec fn scan_text_end(cs: Seq<char>, i: int) -> int
    decreases cs.len() - i,
{
    if i >= cs.len() {
        cs.len() as int
    } else if !is_text_char(cs[i]) {
        i
    } else {
        scan_text_end(cs, i + 1)
    }
}

/// The token stream of `cs` from position `pos` on.
pub open spec fn lex_from(cs: Seq<char>, pos: int) -> Seq<TokModel>
    decreases cs.len() - pos,
{
    if pos < 0 || pos >= cs.len() {
        Seq::empty()
    } else if is_space_char(cs[pos]) {
        lex_from(cs, pos + 1)
    } else if pos + 15 <= cs.len() && cs.subrange(pos, pos + 15) == doctype_chars() {
        // 15 characters: the length of the doctype prefix
        lex_from(cs, pos + 15)
    } else if cs[pos] == '<' {
        seq![TokModel::LAngle] + lex_from(cs, pos + 1)
    } else if cs[pos] == '>' {
        seq![TokModel::RAngle] + lex_from(cs, pos + 1)
    } else if cs[pos] == '/' {
        seq![TokModel::Slash] + lex_from(cs, pos + 1)
    } else if cs[pos] == '=' {
        seq![TokModel::Equal] + lex_from(cs, pos + 1)
    } else if cs[pos] == '"' {
        let end = scan_quote_end(cs, pos + 1);
        if pos + 1 <= end <= cs.len() {
            let tok = TokModel::QuotedText(cs.subrange(pos + 1, end));
            if end < cs.len() {
                seq![tok] + lex_from(cs, end + 1)
            } else {
                seq![tok]
            }
        } else {
            // the scan always lands between `pos + 1` and the end
            Seq::empty()
        }
    } else {
        let end = scan_text_end(cs, pos + 1);
        if pos < end <= cs.len() {
            seq![TokModel::Text(cs.subrange(pos, end))] + lex_from(cs, end)
        } else {
            // the scan always lands between `pos + 1` and the end
            Seq::empty()
        }
    }
}

/// The token stream of a whole input string.
pub open spec fn spec_tokenize(cs: Seq<char>) -> Seq<TokModel> {
    lex_from(cs, 0)
}

proof fn lemma_scan_quote_end_bounds(cs: Seq<char>, i: int)
    requires
        0 <= i <= cs.len(),
    ensures
        i <= scan_quote_end(cs, i) <= cs.len(),
    decreases cs.len() - i,
{
    if i < cs.len() && cs[i] != '"' {
        lemma_scan_quote_end_bounds(cs, i + 1);
    }
}

proof fn lemma_scan_text_end_bounds(cs: Seq<char>, i: int)
    requires
        0 <= i <= cs.len(),
    ensures
        i <= scan_text_end(cs, i) <= cs.len(),
    decreases cs.len() - i,
{
    if i < cs.len() && is_text_char(cs[i]) {
        lemma_scan_text_end_bounds(cs, i + 1);
    }
}

/// Whether `p` occurs in `cs` starting exactly at `pos`.
fn chars_match_at(cs: &Vec<char>, pos: usize, p: &Vec<char>) -> (r: bool)
    requires
        pos <= cs@.len(),
    ensures
        r == (pos + p@.len() <= cs@.len() && cs@.subrange(pos as int, pos as int + p@.len())
            == p@),
{
    let m = p.len();
    if m > cs.len() - pos {
        return false;
    }
    let mut i: usize = 0;
    while i < m
        invariant
            m == p@.len(),
            pos + m <= cs@.len(),
            cs@.len() <= usize::MAX,
            i <= m,
            forall|j: int| 0 <= j < i ==> cs@[pos + j] == p@[j],
        decreases m - i,
    {
        if cs[pos + i] != p[i] {
            proof {
                assert(cs@.subrange(pos as int, pos as int + m)[i as int] != p@[i as int]);
            }
            return false;
        }
        i = i + 1;
    }
    proof {
        assert(cs@.subrange(pos as int, pos as int + m) =~= p@);
    }
    true
}

/// Splits a markup string into its token stream.  The lexer is total: every
/// character is classifiable, so there is no error case.
pub fn tokenize_html(s: &str) -> (r: Vec<Token>)
    ensures
        deep_toks(r@) == spec_tokenize(s@),
{
    proof {
        reveal_strlit("<!DOCTYPE html>");
    }
    let cs = chars_of(s);
    let doctype = chars_of("<!DOCTYPE html>");
    let n = cs.len();
    let mut tokens: Vec<Token> = Vec::new();
    let mut position: usize = 0;
    while position < n
        invariant
            cs@ == s@,
            doctype@ == doctype_chars(),
            doctype@.len() == 15,
            n == cs@.len(),
            position <= n,
            deep_toks(tokens@) + lex_from(cs@, position as int) == spec_tokenize(s@),
        decreases n - position,
    {
        let c = cs[position];
        if is_space(c) {
            position = position + 1;
        } else if chars_match_at(&cs, position, &doctype) {
            position = position + doctype.len();
        } else if c == '<' {
            push_token(&mut tokens, Token::LAngle);
            position = position + 1;
        } else if c == '>' {
            push_token(&mut tokens, Token::RAngle);
            position = position + 1;
        } else if c == '/' {
            push_token(&mut tokens, Token::Slash);
            position = position + 1;
        } else if c == '=' {
            push_token(&mut tokens, Token::Equal);
            position = position + 1;
        } else if c == '"' {
            let mut j: usize = position + 1;
            while j < n && cs[j] != '"'
                invariant
                    n == cs@.len(),
                    position + 1 <= j <= n,
                    scan_quote_end(cs@, position + 1) == scan_quote_end(cs@, j as int),
                decreases n - j,
            {
                j = j + 1;
            }
            proof {
                lemma_scan_quote_end_bounds(cs@, position + 1);
                assert(scan_quote_end(cs@, position + 1) == j);
            }
            let text = string_from_range(&cs, position + 1, j);
            push_token(&mut tokens, Token::QuotedText(text));
            if j < n {
                position = j + 1;
            } else {
                position = n;
            }
        } else {
            let mut j: usize = position + 1;
            while j < n && is_text_char_exec(cs[j])
                invariant
                    n == cs@.len(),
                    position + 1 <= j <= n,
                    scan_text_end(cs@, position + 1) == scan_text_end(cs@, j as int),
                decreases n - j,
            {
                j = j + 1;
            }
            proof {
                lemma_scan_text_end_bounds(cs@, position + 1);
                assert(scan_text_end(cs@, position + 1) == j);
            }
            let text = string_from_range(&cs, position, j);
            push_token(&mut tokens, Token::Text(text));
            position = j;
        }
    }
    proof {
        assert(deep_toks(tokens@) + lex_from(cs@, n as int) =~= deep_toks(tokens@));
    }
    tokens
}

fn is_text_char_exec(c: char) -> (r: bool)
    ensures
        r == is_text_char(c),
{
    !is_space(c) && c != '<' && c != '>' && c != '=' && c != '"'
}

/// Appends one token.
fn push_token(tokens: &mut Vec<Token>, t: Token)
    ensures
        final(tokens)@ == old(tokens)@.push(t),
        deep_toks(final(tokens)@) == deep_toks(old(tokens)@).push(deep_tok(t)),
{
    proof {
        assert(deep_toks(tokens@.push(t)) =~= deep_toks(tokens@).push(deep_tok(t)));
    }
    tokens.push(t);
}

/// A plain word, as bare running text holds them: non-empty, made of
/// bare-text characters, and not opening with a slash (which would begin a
/// slash token).
pub open spec fn is_word(w: Seq<char>) -> bool {
    &&& w.len() > 0
    &&& w[0] != '/'
    &&& forall|i: int| 0 <= i < w.len() ==> is_text_char(#[trigger] w[i])
}

/// Words joined by single spaces.
pub open spec fn spaced(words: Seq<Seq<char>>) -> Seq<char>
    decreases words,
{
    if words.len() == 0 {
        Seq::empty()
    } else if words.len() == 1 {
        words[0]
    } else {
        words[0] + seq![' '] + spaced(words.drop_first())
    }
}

/// A bare-text run ends exactly where its characters stop being text
/// characters.
proof fn lemma_scan_text_run(cs: Seq<char>, i: int, end: int)
    requires
        0 <= i <= end <= cs.len(),
        forall|j: int| i <= j < end ==> is_text_char(#[trigger] cs[j]),
        end == cs.len() || !is_text_char(cs[end]),
    ensures
        scan_text_end(cs, i) == end,
    decreases end - i,
{
    if i < end {
        lemma_scan_text_run(cs, i + 1, end);
    }
}

/// A position holding anything but `<` cannot start the doctype prefix.
pub(crate) proof fn lemma_not_doctype_at(cs: Seq<char>, pos: int)
    requires
        0 <= pos < cs.len(),
        cs[pos] != '<',
    ensures
        !(pos + 15 <= cs.len() && cs.subrange(pos, pos + 15) == doctype_chars()),
{
    reveal_strlit("<!DOCTYPE html>");
    if pos + 15 <= cs.len() && cs.subrange(pos, pos + 15) == doctype_chars() {
        assert(cs.subrange(pos, pos + 15)[0] == cs[pos]);
        assert(doctype_chars()[0] == '<');
    }
}

/// Nor can a position whose next character is not `!`.
pub(crate) proof fn lemma_not_doctype_second(cs: Seq<char>, pos: int)
    requires
        0 <= pos,
        pos + 1 < cs.len(),
        cs[pos + 1] != '!',
    ensures
        !(pos + 15 <= cs.len() && cs.subrange(pos, pos + 15) == doctype_chars()),
{
    reveal_strlit("<!DOCTYPE html>");
    if pos + 15 <= cs.len() && cs.subrange(pos, pos + 15) == doctype_chars() {
        assert(cs.subrange(pos, pos + 15)[1] == cs[pos + 1]);
        assert(doctype_chars()[1] == '!');
    }
}

/// A maximal run of bare-text characters, not opening with a slash,
/// lexes to one bare-text token, and the scan resumes at its end.
pub(crate) proof fn lemma_word_run(cs: Seq<char>, pos: int, end: int)
    requires
        0 <= pos < end <= cs.len(),
        cs[pos] != '/',
        forall|j: int| pos <= j < end ==> is_text_char(#[trigger] cs[j]),
        end == cs.len() || !is_text_char(cs[end]),
    ensures
        lex_from(cs, pos) == seq![TokModel::Text(cs.subrange(pos, end))] + lex_from(cs, end),
{
    assert(is_text_char(cs[pos]));
    lemma_not_doctype_at(cs, pos);
    lemma_scan_text_run(cs, pos + 1, end);
}

/// Words separated by single spaces, ending where a non-text character (or
/// the end) stands, lex to one bare-text token per word; the scan resumes
/// at the boundary.
pub(crate) proof fn lemma_words_lex_mid(cs: Seq<char>, pos: int, q: int, words: Seq<Seq<char>>)
    requires
        0 <= pos <= q <= cs.len(),
        cs.subrange(pos, q) == spaced(words),
        q == cs.len() || !is_text_char(cs[q]),
        forall|k: int| 0 <= k < words.len() ==> is_word(#[trigger] words[k]),
    ensures
        lex_from(cs, pos) == words.map_values(|w: Seq<char>| TokModel::Text(w)) + lex_from(
            cs,
            q,
        ),
    decreases words,
{
    let region = cs.subrange(pos, q);
    if words.len() == 0 {
        assert(region.len() == 0);
        assert(pos == q);
        assert(words.map_values(|w: Seq<char>| TokModel::Text(w)) + lex_from(cs, q) =~= lex_from(
            cs,
            q,
        ));
    } else {
        let w = words[0];
        assert(is_word(w));
        let wl = w.len() as int;
        if words.len() == 1 {
            assert(region == w);
            assert(pos + wl == q);
            assert forall|j: int| pos <= j < q implies is_text_char(#[trigger] cs[j]) by {
                assert(cs[j] == region[j - pos]);
            }
            assert(cs[pos] == region[0]);
            assert(cs[pos] == w[0]);
            lemma_word_run(cs, pos, q);
            assert(cs.subrange(pos, q) == w);
            assert(lex_from(cs, pos) =~= words.map_values(|w2: Seq<char>| TokModel::Text(w2))
                + lex_from(cs, q));
        } else {
            let rest = words.drop_first();
            assert(region == w + seq![' '] + spaced(rest));
            assert(region.len() == wl + 1 + spaced(rest).len());
            assert forall|j: int| pos <= j < pos + wl implies is_text_char(#[trigger] cs[j]) by {
                assert(cs[j] == region[j - pos]);
                assert(region[j - pos] == w[j - pos]);
            }
            assert(region =~= (w + seq![' ']) + spaced(rest));
            assert(cs[pos + wl] == region[wl]);
            assert(region[wl] == (w + seq![' '])[wl]);
            assert(region[wl] == ' ');
            assert(!is_text_char(cs[pos + wl]));
            assert(cs[pos] == region[0]);
            assert(region[0] == (w + seq![' '])[0]);
            assert((w + seq![' '])[0] == w[0]);
            assert(cs[pos] == w[0]);
            lemma_word_run(cs, pos, pos + wl);
            assert(cs.subrange(pos, pos + wl) =~= w);
            // after the word, one space, then the remaining words
            assert forall|j: int| 0 <= j < spaced(rest).len() implies cs.subrange(
                pos + wl + 1,
                q,
            )[j] == spaced(rest)[j] by {
                assert(cs.subrange(pos + wl + 1, q)[j] == cs[pos + wl + 1 + j]);
                assert(cs[pos + wl + 1 + j] == region[wl + 1 + j]);
                assert(region[wl + 1 + j] == spaced(rest)[j]);
            }
            assert(cs.subrange(pos + wl + 1, q) =~= spaced(rest));
            lemma_words_lex_mid(cs, pos + wl + 1, q, rest);
            assert(lex_from(cs, pos + wl) == lex_from(cs, pos + wl + 1));
            assert(lex_from(cs, pos) =~= words.map_values(|w2: Seq<char>| TokModel::Text(w2))
                + lex_from(cs, q));
        }
    }
}

/// Lexing N whitespace-separated words yields exactly N bare-text tokens,
/// one per word, in the original order.
pub proof fn lemma_words_tokenize(words: Seq<Seq<char>>)
    requires
        forall|k: int| 0 <= k < words.len() ==> is_word(#[trigger] words[k]),
    ensures
        spec_tokenize(spaced(words)) == words.map_values(|w: Seq<char>| TokModel::Text(w)),
{
    let cs = spaced(words);
    assert(cs.subrange(0, cs.len() as int) =~= cs);
    lemma_words_lex_mid(cs, 0, cs.len() as int, words);
    assert(words.map_values(|w: Seq<char>| TokModel::Text(w)) + lex_from(cs, cs.len() as int)
        =~= words.map_values(|w: Seq<char>| TokModel::Text(w)));
}

} // verus!
