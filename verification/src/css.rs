//! The minimal stylesheet dialect: its tokens, lexer and parser.
//!
//! The lexer is a total scan over `{`, `}`, `:`, `;` as single-character
//! tokens and whitespace-delimited identifiers.  The parser reads one style
//! record after another until the tokens are exhausted: a record is either
//! `selector '{' declarations '}'` or, when a colon follows the leading
//! identifier, a bare declaration list `(ident ':' ident ';')*` with no
//! selector, as inline style attribute values have.
use vstd::prelude::*;

use crate::error::{Parse, ParseError};
use crate::strutil::{chars_of, is_space, is_space_char, str_eq, string_from_range};

verus! {

/// A stylesheet token.
#[derive(Debug, PartialEq, Eq)]
pub enum Token {
    LBrace,
    RBrace,
    Colon,
    SemiColon,
    Ident(String),
}

/// The model of a stylesheet token.
pub enum TokModel {
    LBrace,
    RBrace,
    Colon,
    SemiColon,
    Ident(Seq<char>),
}

pub open spec fn deep_tok(t: Token) -> TokModel {
    match t {
        Token::LBrace => TokModel::LBrace,
        Token::RBrace => TokModel::RBrace,
        Token::Colon => TokModel::Colon,
        Token::SemiColon => TokModel::SemiColon,
        Token::Ident(s) => TokModel::Ident(s@),
    }
}

pub open spec fn deep_toks(s: Seq<Token>) -> Seq<TokModel> {
    s.map_values(|t: Token| deep_tok(t))
}

/// A copy of a token, character for character.
pub fn clone_token(t: &Token) -> (r: Token)
    ensures
        deep_tok(r) == deep_tok(*t),
{
    match t {
        Token::LBrace => Token::LBrace,
        Token::RBrace => Token::RBrace,
        Token::Colon => Token::Colon,
        Token::SemiColon => Token::SemiColon,
        Token::Ident(s) => Token::Ident(s.clone()),
    }
}

/// Whether two tokens hold the same variant and the same characters.
pub fn token_eq(a: &Token, b: &Token) -> (r: bool)
    ensures
        r == (deep_tok(*a) == deep_tok(*b)),
{
    match (a, b) {
        (Token::LBrace, Token::LBrace) => true,
        (Token::RBrace, Token::RBrace) => true,
        (Token::Colon, Token::Colon) => true,
        (Token::SemiColon, Token::SemiColon) => true,
        (Token::Ident(x), Token::Ident(y)) => str_eq(x.as_str(), y.as_str()),
        _ => false,
    }
}

/// A single-character stylesheet token.
pub open spec fn is_css_delim(c: char) -> bool {
    c == '{' || c == '}' || c == ':' || c == ';'
}

/// A character that may stand inside an identifier.
pub open spec fn is_ident_char(c: char) -> bool {
    !is_space_char(c) && !is_css_delim(c)
}

/// The first position at or after `i` where an identifier ends, or the end.
pub open spec fn scan_ident_end(cs: Seq<char>, i: int) -> int
    decreases cs.len() - i,
{
    if i >= cs.len() {
        cs.len() as int
    } else if !is_ident_char(cs[i]) {
        i
    } else {
        scan_ident_end(cs, i + 1)
    }
}

/// The token stream of `cs` from position `pos` on.
pub open spec fn lex_from(cs: Seq<char>, pos: int) -> Seq<TokModel>
    decreases cs.len() - pos,
{
    if pos < 0 || pos >= cs.len() {
        Seq::empty()
    } else if is_space_char(cs[pos]) {
        lex_from(cs, pos + 1)
    } else if cs[pos] == '{' {
        seq![TokModel::LBrace] + lex_from(cs, pos + 1)
    } else if cs[pos] == '}' {
        seq![TokModel::RBrace] + lex_from(cs, pos + 1)
    } else if cs[pos] == ':' {
        seq![TokModel::Colon] + lex_from(cs, pos + 1)
    } else if cs[pos] == ';' {
        seq![TokModel::SemiColon] + lex_from(cs, pos + 1)
    } else {
        let end = scan_ident_end(cs, pos + 1);
        if pos < end <= cs.len() {
            seq![TokModel::Ident(cs.subrange(pos, end))] + lex_from(cs, end)
        } else {
            // the scan always lands between `pos + 1` and the end
            Seq::empty()
        }
    }
}

/// The token stream of a whole input string.
pub open spec fn spec_tokenize(cs: Seq<char>) -> Seq<TokModel> {
    lex_from(cs, 0)
}

proof fn lemma_scan_ident_end_bounds(cs: Seq<char>, i: int)
    requires
        0 <= i <= cs.len(),
    ensures
        i <= scan_ident_end(cs, i) <= cs.len(),
    decreases cs.len() - i,
{
    if i < cs.len() && is_ident_char(cs[i]) {
        lemma_scan_ident_end_bounds(cs, i + 1);
    }
}

fn is_ident_char_exec(c: char) -> (r: bool)
    ensures
        r == is_ident_char(c),
{
    !is_space(c) && c != '{' && c != '}' && c != ':' && c != ';'
}

/// Appends one token.
fn push_token(tokens: &mut Vec<Token>, t: Token)
    ensures
        final(tokens)@ == old(tokens)@.push(t),
        deep_toks(final(tokens)@) == deep_toks(old(tokens)@).push(deep_tok(t)),
{
    proof {
        assert(deep_toks(tokens@.push(t)) =~= deep_toks(tokens@).push(deep_tok(t)));
    }
    tokens.push(t);
}

/// Splits a stylesheet string into its token stream.  The lexer is total:
/// every character is classifiable, so there is no error case.
pub fn tokenize_css(s: &str) -> (r: Vec<Token>)
    ensures
        deep_toks(r@) == spec_tokenize(s@),
{
    let cs = chars_of(s);
    let n = cs.len();
    let mut tokens: Vec<Token> = Vec::new();
    let mut position: usize = 0;
    while position < n
        invariant
            cs@ == s@,
            n == cs@.len(),
            position <= n,
            deep_toks(tokens@) + lex_from(cs@, position as int) == spec_tokenize(s@),
        decreases n - position,
    {
        let c = cs[position];
        if is_space(c) {
            position = position + 1;
        } else if c == '{' {
            push_token(&mut tokens, Token::LBrace);
            position = position + 1;
        } else if c == '}' {
            push_token(&mut tokens, Token::RBrace);
            position = position + 1;
        } else if c == ':' {
            push_token(&mut tokens, Token::Colon);
            position = position + 1;
        } else if c == ';' {
            push_token(&mut tokens, Token::SemiColon);
            position = position + 1;
        } else {
            let mut j: usize = position + 1;
            while j < n && is_ident_char_exec(cs[j])
                invariant
                    n == cs@.len(),
                    position + 1 <= j <= n,
                    scan_ident_end(cs@, position + 1) == scan_ident_end(cs@, j as int),
                decreases n - j,
            {
                j = j + 1;
            }
            proof {
                lemma_scan_ident_end_bounds(cs@, position + 1);
                assert(scan_ident_end(cs@, position + 1) == j);
            }
            let text = string_from_range(&cs, position, j);
            push_token(&mut tokens, Token::Ident(text));
            position = j;
        }
    }
    proof {
        assert(deep_toks(tokens@) + lex_from(cs@, n as int) =~= deep_toks(tokens@));
    }
    tokens
}

/// One parsed style record: an optional selector (present only for the
/// block form `name { decls }`) and the ordered declarations.
#[derive(Debug, PartialEq, Eq)]
pub struct Style {
    pub selector: Option<String>,
    pub rules: Vec<(String, String)>,
}

/// The parsed records of a whole stylesheet string, in order.
#[derive(Debug, PartialEq, Eq)]
pub struct Styles {
    pub styles: Vec<Style>,
}

/// The model of a style record.
pub struct StyleModel {
    pub selector: Option<Seq<char>>,
    pub rules: Seq<(Seq<char>, Seq<char>)>,
}

pub open spec fn deep_style(st: Style) -> StyleModel {
    StyleModel {
        selector: match st.selector {
            Some(s) => Some(s@),
            None => None,
        },
        rules: st.rules.deep_view(),
    }
}

pub open spec fn deep_styles(s: Seq<Style>) -> Seq<StyleModel> {
    s.map_values(|st: Style| deep_style(st))
}

/// Declarations `(ident ':' ident ';')*`, ending before the first token
/// that is not an identifier.
pub open spec fn spec_rules(toks: Seq<TokModel>, pos: int) -> Parse<Seq<(Seq<char>, Seq<char>)>>
    decreases toks.len() - pos,
{
    if !(0 <= pos < toks.len()) {
        Parse::Done(Seq::empty(), pos)
    } else {
        match toks[pos] {
            TokModel::Ident(k) => {
                if !(pos + 1 < toks.len() && toks[pos + 1] is Colon) {
                    Parse::Fail(pos + 1)
                } else if !(pos + 2 < toks.len()) {
                    Parse::Fail(pos + 2)
                } else {
                    match toks[pos + 2] {
                        TokModel::Ident(v) => {
                            if !(pos + 3 < toks.len() && toks[pos + 3] is SemiColon) {
                                Parse::Fail(pos + 3)
                            } else {
                                match spec_rules(toks, pos + 4) {
                                    Parse::Fail(f) => Parse::Fail(f),
                                    Parse::Done(rest, p) => Parse::Done(seq![(k, v)] + rest, p),
                                }
                            }
                        },
                        _ => Parse::Fail(pos + 2),
                    }
                }
            },
            _ => Parse::Done(Seq::empty(), pos),
        }
    }
}

/// One style record: `selector '{' declarations '}'`, or a bare declaration
/// list when a colon follows the leading identifier.
pub open spec fn spec_style(toks: Seq<TokModel>, pos: int) -> Parse<StyleModel> {
    if !(0 <= pos < toks.len()) {
        Parse::Fail(pos)
    } else {
        match toks[pos] {
            TokModel::Ident(id) => {
                if pos + 1 < toks.len() && toks[pos + 1] is LBrace {
                    match spec_rules(toks, pos + 2) {
                        Parse::Fail(f) => Parse::Fail(f),
                        Parse::Done(rules, p2) => if p2 < pos + 2 || p2 > toks.len() {
                            // the declaration scan always advances and stays in bounds
                            Parse::Fail(pos)
                        } else if p2 < toks.len() && toks[p2] is RBrace {
                            Parse::Done(StyleModel { selector: Some(id), rules }, p2 + 1)
                        } else {
                            Parse::Fail(p2)
                        },
                    }
                } else if pos + 1 < toks.len() && toks[pos + 1] is Colon {
                    match spec_rules(toks, pos) {
                        Parse::Fail(f) => Parse::Fail(f),
                        Parse::Done(rules, p2) => Parse::Done(
                            StyleModel { selector: None, rules },
                            p2,
                        ),
                    }
                } else {
                    Parse::Fail(pos + 1)
                }
            },
            _ => Parse::Fail(pos),
        }
    }
}

/// Style records until the tokens are exhausted.
pub open spec fn spec_styles(toks: Seq<TokModel>, pos: int) -> Parse<Seq<StyleModel>>
    decreases toks.len() - pos,
{
    if !(0 <= pos < toks.len()) {
        Parse::Done(Seq::empty(), pos)
    } else {
        match spec_style(toks, pos) {
            Parse::Fail(f) => Parse::Fail(f),
            Parse::Done(st, p2) => if p2 <= pos || p2 > toks.len() {
                // a parsed record always advances and stays in bounds
                Parse::Fail(pos)
            } else {
                match spec_styles(toks, p2) {
                    Parse::Fail(f) => Parse::Fail(f),
                    Parse::Done(rest, p3) => Parse::Done(seq![st] + rest, p3),
                }
            },
        }
    }
}

/// The parse of a whole stylesheet string: its token stream, then records
/// until exhaustion.
pub open spec fn spec_parse_css(s: Seq<char>) -> Parse<Seq<StyleModel>> {
    spec_styles(spec_tokenize(s), 0)
}


/// A successful declaration scan never moves backwards.
proof fn lemma_spec_rules_monotone(toks: Seq<TokModel>, pos: int)
    ensures
        spec_rules(toks, pos) matches Parse::Done(rest, p) ==> p >= pos,
    decreases toks.len() - pos,
{
    if 0 <= pos < toks.len() {
        if toks[pos] is Ident && pos + 1 < toks.len() && toks[pos + 1] is Colon && pos + 2
            < toks.len() && toks[pos + 2] is Ident && pos + 3 < toks.len() && toks[pos + 3]
            is SemiColon {
            lemma_spec_rules_monotone(toks, pos + 4);
        }
    }
}

/// The stylesheet parser: a token stream and a scan position.
pub struct CssParser {
    pub tokens: Vec<Token>,
    pub position: usize,
}

/// A fresh owned string from a literal.
fn new_string(s: &str) -> (r: String)
    ensures
        r@ == s@,
{
    String::from_str(s)
}

/// The description of the construct an expectation of each token names.
pub open spec fn desc_of(t: TokModel) -> Seq<char> {
    match t {
        TokModel::LBrace => "'{'"@,
        TokModel::RBrace => "'}'"@,
        TokModel::Colon => "':'"@,
        TokModel::SemiColon => "';'"@,
        TokModel::Ident(s) => "an identifier"@,
    }
}

/// A short description of a token kind, for an error report.
fn token_desc(t: &Token) -> (r: String)
    ensures
        r@ == desc_of(deep_tok(*t)),
{
    match t {
        Token::LBrace => new_string("'{'"),
        Token::RBrace => new_string("'}'"),
        Token::Colon => new_string("':'"),
        Token::SemiColon => new_string("';'"),
        Token::Ident(_) => new_string("an identifier"),
    }
}

impl CssParser {
    /// The model of the token stream.
    pub open spec fn toks(&self) -> Seq<TokModel> {
        deep_toks(self.tokens@)
    }

    /// The scan position never runs past the end of the stream.
    pub open spec fn wf(&self) -> bool {
        self.position <= self.tokens@.len()
    }

    pub fn new(tokens: Vec<Token>) -> (r: CssParser)
        ensures
            r.toks() == deep_toks(tokens@),
            r.position == 0,
            r.wf(),
    {
        CssParser { tokens, position: 0 }
    }

    /// The upcoming token, if any.
    pub fn peek(&self) -> (r: Option<&Token>)
        ensures
            match r {
                Some(t) => self.position < self.tokens@.len() && deep_tok(*t) == self.toks()[self.position as int],
                None => self.position >= self.tokens@.len(),
            },
    {
        if self.position < self.tokens.len() {
            Some(&self.tokens[self.position])
        } else {
            None
        }
    }

    /// A copy of every token from the scan position to the end, for an
    /// error report.
    fn window(&self) -> (r: Vec<Token>)
        requires
            self.wf(),
        ensures
            deep_toks(r@) == self.toks().skip(self.position as int),
    {
        let mut r: Vec<Token> = Vec::new();
        let n = self.tokens.len();
        let mut i: usize = self.position;
        while i < n
            invariant
                n == self.tokens@.len(),
                self.position <= i <= n,
                deep_toks(r@) == self.toks().subrange(self.position as int, i as int),
            decreases n - i,
        {
            let t = clone_token(&self.tokens[i]);
            proof {
                assert(deep_toks(r@.push(t)) =~= deep_toks(r@).push(deep_tok(t)));
                assert(self.toks().subrange(self.position as int, i as int).push(
                    self.toks()[i as int],
                ) =~= self.toks().subrange(self.position as int, i + 1));
            }
            r.push(t);
            i = i + 1;
        }
        proof {
            assert(self.toks().subrange(self.position as int, n as int) =~= self.toks().skip(
                self.position as int,
            ));
        }
        r
    }

    /// An error at the present position.
    fn fail(&self, expected: String) -> (r: ParseError<Token>)
        requires
            self.wf(),
        ensures
            r.position == self.position,
            deep_toks(r.found@) == self.toks().skip(self.position as int),
            r.expected@ == expected@,
    {
        ParseError::new(expected, self.window(), self.position)
    }

    /// Consumes the upcoming token when it equals `token`; fails otherwise,
    /// naming the token that was wanted.
    pub fn expect(&mut self, token: Token) -> (r: Result<(), ParseError<Token>>)
        requires
            old(self).wf(),
        ensures
            final(self).tokens == old(self).tokens,
            final(self).wf(),
            match r {
                Ok(()) => old(self).position < old(self).tokens@.len() && old(self).toks()[old(self).position as int] == deep_tok(token) && final(self).position == old(self).position + 1,
                Err(e) => *final(self) == *old(self) && (old(self).position >= old(self).tokens@.len()
                    || old(self).toks()[old(self).position as int] != deep_tok(token))
                    && e.position == old(self).position && deep_toks(e.found@) == old(
                    self,
                ).toks().skip(e.position as int) && e.expected@ == desc_of(deep_tok(token)),
            },
    {
        if self.position >= self.tokens.len() {
            return Err(self.fail(token_desc(&token)));
        }
        if !token_eq(&self.tokens[self.position], &token) {
            return Err(self.fail(token_desc(&token)));
        }
        self.position = self.position + 1;
        Ok(())
    }

    /// Consumes an identifier token and yields its characters.
    pub fn expect_ident(&mut self) -> (r: Result<String, ParseError<Token>>)
        requires
            old(self).wf(),
        ensures
            final(self).tokens == old(self).tokens,
            final(self).wf(),
            match r {
                Ok(s) => old(self).position < old(self).tokens@.len() && old(self).toks()[old(self).position as int] == TokModel::Ident(s@) && final(self).position == old(self).position + 1,
                Err(e) => *final(self) == *old(self) && (old(self).position >= old(self).tokens@.len()
                    || !(old(self).toks()[old(self).position as int] is Ident)) && e.position
                    == old(self).position && deep_toks(e.found@) == old(self).toks().skip(
                    e.position as int,
                ) && e.expected@ == "an identifier"@,
            },
    {
        if self.position < self.tokens.len() {
            let is_ident = matches!(&self.tokens[self.position], Token::Ident(_));
            if is_ident {
                let s = match &self.tokens[self.position] {
                    Token::Ident(text) => text.clone(),
                    _ => String::new(),
                };
                self.position = self.position + 1;
                return Ok(s);
            }
        }
        Err(self.fail(new_string("an identifier")))
    }

    /// Declarations `(ident ':' ident ';')*`, each yielding one
    /// property/value pair, ending before the first token that is not an
    /// identifier.
    pub fn rules(&mut self) -> (r: Result<Vec<(String, String)>, ParseError<Token>>)
        requires
            old(self).wf(),
        ensures
            final(self).tokens == old(self).tokens,
            final(self).wf(),
            old(self).position <= final(self).position,
            match r {
                Ok(v) => spec_rules(old(self).toks(), old(self).position as int) == Parse::Done(
                    v.deep_view(),
                    final(self).position as int,
                ),
                Err(e) => spec_rules(old(self).toks(), old(self).position as int) == Parse::<
                    Seq<(Seq<char>, Seq<char>)>,
                >::Fail(e.position as int) && deep_toks(e.found@) == old(self).toks().skip(
                    e.position as int,
                ),
            },
    {
        let ghost t = self.toks();
        let ghost pos0 = self.position as int;
        let mut rules: Vec<(String, String)> = Vec::new();
        proof {
            assert(rules.deep_view() =~= Seq::<(Seq<char>, Seq<char>)>::empty());
        }
        let mut go = matches!(self.peek(), Some(Token::Ident(_)));
        while go
            invariant
                self.wf(),
                t == self.toks(),
                self.tokens == old(self).tokens,
                pos0 == old(self).position as int,
                pos0 <= self.position as int,
                go == (self.position < self.tokens@.len() && self.toks()[self.position as int]
                    is Ident),
                match spec_rules(t, self.position as int) {
                    Parse::Done(rest, p) => spec_rules(t, pos0) == Parse::<
                        Seq<(Seq<char>, Seq<char>)>,
                    >::Done(rules.deep_view() + rest, p),
                    Parse::Fail(f) => spec_rules(t, pos0) == Parse::<
                        Seq<(Seq<char>, Seq<char>)>,
                    >::Fail(f),
                },
            decreases self.tokens@.len() - self.position,
        {
            let key = match self.expect_ident() {
                Ok(k) => k,
                Err(e) => return Err(e),
            };
            match self.expect(Token::Colon) {
                Ok(()) => (),
                Err(e) => return Err(e),
            }
            let value = match self.expect_ident() {
                Ok(v) => v,
                Err(e) => return Err(e),
            };
            match self.expect(Token::SemiColon) {
                Ok(()) => (),
                Err(e) => return Err(e),
            }
            proof {
                assert(rules.deep_view().push((key@, value@)) =~= (rules.deep_view() + seq![
                    (key@, value@),
                ]));
                match spec_rules(t, self.position as int) {
                    Parse::Done(rest, p) => {
                        assert((rules.deep_view() + seq![(key@, value@)]) + rest
                            =~= rules.deep_view() + (seq![(key@, value@)] + rest));
                    },
                    Parse::Fail(_) => {},
                }
            }
            let ghost before = rules.deep_view();
            rules.push((key, value));
            proof {
                assert(rules.deep_view() =~= before.push((rules@[rules@.len() - 1].0@, rules@[
                    rules@.len() - 1].1@)));
            }
            go = matches!(self.peek(), Some(Token::Ident(_)));
        }
        proof {
            assert(rules.deep_view() + Seq::<(Seq<char>, Seq<char>)>::empty()
                =~= rules.deep_view());
        }
        Ok(rules)
    }

    /// One style record, disambiguated by the token after the leading
    /// identifier: a brace starts a selector block, a colon a bare
    /// declaration list read from the identifier itself.
    pub fn style(&mut self) -> (r: Result<Style, ParseError<Token>>)
        requires
            old(self).wf(),
        ensures
            final(self).tokens == old(self).tokens,
            final(self).wf(),
            old(self).position <= final(self).position,
            match r {
                Ok(st) => spec_style(old(self).toks(), old(self).position as int) == Parse::Done(
                    deep_style(st),
                    final(self).position as int,
                ) && old(self).position < final(self).position,
                Err(e) => spec_style(old(self).toks(), old(self).position as int) == Parse::<
                    StyleModel,
                >::Fail(e.position as int) && deep_toks(e.found@) == old(self).toks().skip(
                    e.position as int,
                ),
            },
    {
        let ghost t = self.toks();
        let ghost pos0 = self.position as int;
        let prev_position = self.position;
        let ident = match self.expect_ident() {
            Ok(i) => i,
            Err(e) => return Err(e),
        };
        let next_is_brace = matches!(self.peek(), Some(Token::LBrace));
        let next_is_colon = matches!(self.peek(), Some(Token::Colon));
        if next_is_brace {
            match self.expect(Token::LBrace) {
                Ok(()) => (),
                Err(e) => return Err(e),
            }
            let rules = match self.rules() {
                Ok(v) => v,
                Err(e) => return Err(e),
            };
            match self.expect(Token::RBrace) {
                Ok(()) => (),
                Err(e) => return Err(e),
            }
            let st = Style { selector: Some(ident), rules };
            return Ok(st);
        }
        if next_is_colon {
            self.position = prev_position;
            let rules = match self.rules() {
                Ok(v) => v,
                Err(e) => return Err(e),
            };
            let st = Style { selector: None, rules };
            proof {
                lemma_spec_rules_monotone(t, pos0 + 4);
            }
            return Ok(st);
        }
        Err(self.fail(new_string("'{' or ':'")))
    }

    /// Style records until the tokens are exhausted.
    pub fn styles(&mut self) -> (r: Result<Styles, ParseError<Token>>)
        requires
            old(self).wf(),
        ensures
            final(self).tokens == old(self).tokens,
            final(self).wf(),
            match r {
                Ok(v) => spec_styles(old(self).toks(), old(self).position as int) == Parse::Done(
                    deep_styles(v.styles@),
                    final(self).position as int,
                ),
                Err(e) => spec_styles(old(self).toks(), old(self).position as int) == Parse::<
                    Seq<StyleModel>,
                >::Fail(e.position as int) && deep_toks(e.found@) == old(self).toks().skip(
                    e.position as int,
                ),
            },
    {
        let ghost t = self.toks();
        let ghost pos0 = self.position as int;
        let mut styles: Vec<Style> = Vec::new();
        proof {
            assert(deep_styles(styles@) =~= Seq::<StyleModel>::empty());
        }
        while self.position < self.tokens.len()
            invariant
                self.wf(),
                t == self.toks(),
                self.tokens == old(self).tokens,
                pos0 == old(self).position as int,
                pos0 <= self.position as int,
                match spec_styles(t, self.position as int) {
                    Parse::Done(rest, p) => spec_styles(t, pos0) == Parse::<
                        Seq<StyleModel>,
                    >::Done(deep_styles(styles@) + rest, p),
                    Parse::Fail(f) => spec_styles(t, pos0) == Parse::<Seq<StyleModel>>::Fail(f),
                },
            decreases self.tokens@.len() - self.position,
        {
            match self.style() {
                Ok(st) => {
                    proof {
                        assert(deep_styles(styles@.push(st)) =~= deep_styles(styles@).push(
                            deep_style(st),
                        ));
                        assert(deep_styles(styles@).push(deep_style(st)) =~= (deep_styles(styles@)
                            + seq![deep_style(st)]));
                        match spec_styles(t, self.position as int) {
                            Parse::Done(rest, p) => {
                                assert((deep_styles(styles@) + seq![deep_style(st)]) + rest
                                    =~= deep_styles(styles@) + (seq![deep_style(st)] + rest));
                            },
                            Parse::Fail(_) => {},
                        }
                    }
                    styles.push(st);
                },
                Err(e) => {
                    return Err(e);
                },
            }
        }
        proof {
            assert(deep_styles(styles@) + Seq::<StyleModel>::empty() =~= deep_styles(styles@));
        }
        Ok(Styles { styles })
    }
}

/// Parses a whole stylesheet string: its token stream, then records until
/// exhaustion.  Returns the records, or the structured error of the first
/// failure; no partial list is ever returned.
pub fn parse_css(input: String) -> (r: Result<Styles, ParseError<Token>>)
    ensures
        match r {
            Ok(v) => spec_parse_css(input@) matches Parse::Done(sts, p) && sts == deep_styles(
                v.styles@,
            ),
            Err(err) => spec_parse_css(input@) matches Parse::Fail(p) && p == err.position as int
                && deep_toks(err.found@) == spec_tokenize(input@).skip(err.position as int),
        },
{
    let tokens = tokenize_css(input.as_str());
    let mut parser = CssParser::new(tokens);
    let styles = match parser.styles() {
        Ok(v) => v,
        Err(e) => return Err(e),
    };
    Ok(styles)
}

} // verus!
