//! The markup grammar and its recursive-descent parser.
//!
//! Grammar, informally:
//! - `element := textNode | taggedElement`
//! - `textNode := bare-text` (when the next token is not `<`)
//! - `taggedElement := '<' name attribute* ( '/' '>' | '>' body '<' '/' name '>' )`
//! - `attribute := key '=' quoted-value`
//! - `body := element*` terminated by the lookahead `< /`
//!
//! Name-specific rules: `meta` ends right after its opening tag; the content
//! of `script` up to the literal closing sequence `< / script >` is discarded
//! verbatim; a `/` right before `>` closes any element with no children and
//! no matching closing tag; for every other name the children are parsed
//! recursively and the closing tag's name must equal the opening one.
use vstd::prelude::*;

use crate::dom::{deep_elem, deep_elems, ElemModel, HtmlElement};
use crate::error::{Parse, ParseError};
use crate::lex::{
    clone_token, deep_tok, deep_toks, lex_from, spec_tokenize, token_eq, tokenize_html, TokModel,
    Token,
};
use crate::strutil::{is_prefix, str_eq};

verus! {

/// The text leaf built from one bare word.
pub open spec fn text_leaf(word: Seq<char>) -> ElemModel {
    ElemModel {
        name: "textNode"@,
        attributes: Seq::empty(),
        children: Seq::empty(),
        text_node: Some(word),
    }
}

/// A childless element, as the self-closing form, `meta` and `script` yield.
pub open spec fn childless(name: Seq<char>, attrs: Seq<(Seq<char>, Seq<char>)>) -> ElemModel {
    ElemModel { name, attributes: attrs, children: Seq::empty(), text_node: None }
}

/// One attribute: `key '=' quoted-value`.
pub open spec fn spec_attribute(toks: Seq<TokModel>, pos: int) -> Parse<(Seq<char>, Seq<char>)> {
    if !(0 <= pos < toks.len()) {
        Parse::Fail(pos)
    } else {
        match toks[pos] {
            TokModel::Text(k) => {
                if !(pos + 1 < toks.len() && toks[pos + 1] is Equal) {
                    Parse::Fail(pos + 1)
                } else if !(pos + 2 < toks.len()) {
                    Parse::Fail(pos + 2)
                } else {
                    match toks[pos + 2] {
                        TokModel::QuotedText(v) => Parse::Done((k, v), pos + 3),
                        _ => Parse::Fail(pos + 2),
                    }
                }
            },
            _ => Parse::Fail(pos),
        }
    }
}

/// Attributes up to the closing `>` or a self-closing `/`.
pub open spec fn spec_attributes(toks: Seq<TokModel>, pos: int) -> Parse<
    Seq<(Seq<char>, Seq<char>)>,
>
    decreases toks.len() - pos,
{
    if !(0 <= pos < toks.len()) {
        // truncated input: the attribute that would be read next fails here
        Parse::Fail(pos)
    } else if toks[pos] is RAngle || toks[pos] is Slash {
        Parse::Done(Seq::empty(), pos)
    } else {
        match spec_attribute(toks, pos) {
            Parse::Fail(e) => Parse::Fail(e),
            Parse::Done(kv, p2) => if p2 <= pos || p2 > toks.len() {
                // an attribute always advances and stays in bounds
                Parse::Fail(pos)
            } else {
                match spec_attributes(toks, p2) {
                    Parse::Fail(e) => Parse::Fail(e),
                    Parse::Done(rest, p3) => Parse::Done(seq![kv] + rest, p3),
                }
            },
        }
    }
}

/// Whether the literal closing sequence `< / script >` stands at `q`.
pub open spec fn script_close_at(toks: Seq<TokModel>, q: int) -> bool {
    &&& toks[q] is LAngle
    &&& toks[q + 1] is Slash
    &&& toks[q + 2] matches TokModel::Text(s) && s == "script"@
    &&& toks[q + 3] is RAngle
}

/// The first position at or after `q` where `< / script >` stands, or the
/// length of the stream when there is none.
pub open spec fn scan_script_close(toks: Seq<TokModel>, q: int) -> int
    decreases toks.len() - q,
{
    if q < 0 || q + 4 > toks.len() {
        toks.len() as int
    } else if script_close_at(toks, q) {
        q
    } else {
        scan_script_close(toks, q + 1)
    }
}

/// One element starting at `pos`.
pub open spec fn spec_element(toks: Seq<TokModel>, pos: int) -> Parse<ElemModel>
    decreases toks.len() - pos, 1int,
{
    if !(0 <= pos < toks.len()) {
        Parse::Fail(pos)
    } else {
        match toks[pos] {
            TokModel::Text(word) => Parse::Done(text_leaf(word), pos + 1),
            TokModel::LAngle => {
                if !(pos + 1 < toks.len()) {
                    Parse::Fail(pos + 1)
                } else {
                    match toks[pos + 1] {
                        TokModel::Text(name) => spec_tagged_rest(toks, pos, name),
                        _ => Parse::Fail(pos + 1),
                    }
                }
            },
            _ => Parse::Fail(pos),
        }
    }
}

/// The remainder of a tagged element once `'<' name` has been consumed at
/// `pos`: its attributes, then one of the closing forms.
pub open spec fn spec_tagged_rest(toks: Seq<TokModel>, pos: int, name: Seq<char>) -> Parse<
    ElemModel,
>
    decreases toks.len() - pos, 0int,
{
    if !(0 <= pos + 2) {
        Parse::Fail(pos)
    } else {
        match spec_attributes(toks, pos + 2) {
            Parse::Fail(e) => Parse::Fail(e),
            Parse::Done(attrs, p2) => {
                if p2 < pos + 2 || p2 > toks.len() {
                    // the attribute scan always advances and stays in bounds
                    Parse::Fail(pos)
                } else if p2 < toks.len() && toks[p2] is Slash {
                    if p2 + 1 < toks.len() && toks[p2 + 1] is RAngle {
                        Parse::Done(childless(name, attrs), p2 + 2)
                    } else {
                        Parse::Fail(p2 + 1)
                    }
                } else if !(p2 < toks.len() && toks[p2] is RAngle) {
                    Parse::Fail(p2)
                } else if name == "meta"@ {
                    Parse::Done(childless(name, attrs), p2 + 1)
                } else if name == "script"@ {
                    let q = scan_script_close(toks, p2 + 1);
                    if q + 4 <= toks.len() && script_close_at(toks, q) {
                        Parse::Done(childless(name, attrs), q + 4)
                    } else {
                        Parse::Fail(toks.len() as int)
                    }
                } else {
                    match spec_elements(toks, p2 + 1) {
                        Parse::Fail(e) => Parse::Fail(e),
                        Parse::Done(kids, p4) => spec_closing_tag(toks, p4, name, attrs, kids),
                    }
                }
            },
        }
    }
}

/// The closing tag `'<' '/' name '>'` at `p4`, whose name must equal the
/// opening tag's; on success the whole element.
pub open spec fn spec_closing_tag(
    toks: Seq<TokModel>,
    p4: int,
    name: Seq<char>,
    attrs: Seq<(Seq<char>, Seq<char>)>,
    kids: Seq<ElemModel>,
) -> Parse<ElemModel> {
    if !(0 <= p4 < toks.len() && toks[p4] is LAngle) {
        Parse::Fail(p4)
    } else if !(p4 + 1 < toks.len() && toks[p4 + 1] is Slash) {
        Parse::Fail(p4 + 1)
    } else if !(p4 + 2 < toks.len()) {
        Parse::Fail(p4 + 2)
    } else {
        match toks[p4 + 2] {
            TokModel::Text(close) => {
                if close == name {
                    if p4 + 3 < toks.len() && toks[p4 + 3] is RAngle {
                        Parse::Done(
                            ElemModel { name, attributes: attrs, children: kids, text_node: None },
                            p4 + 4,
                        )
                    } else {
                        Parse::Fail(p4 + 3)
                    }
                } else {
                    Parse::Fail(p4 + 2)
                }
            },
            _ => Parse::Fail(p4 + 2),
        }
    }
}

/// Elements until the lookahead `< /` or the end of the stream.
pub open spec fn spec_elements(toks: Seq<TokModel>, pos: int) -> Parse<Seq<ElemModel>>
    decreases toks.len() - pos, 2int,
{
    if !(0 <= pos < toks.len()) {
        Parse::Done(Seq::empty(), pos)
    } else if toks[pos] is LAngle && pos + 1 < toks.len() && toks[pos + 1] is Slash {
        Parse::Done(Seq::empty(), pos)
    } else {
        match spec_element(toks, pos) {
            Parse::Fail(e) => Parse::Fail(e),
            Parse::Done(e, p2) => if p2 <= pos || p2 > toks.len() {
                // a parsed element always advances and stays in bounds
                Parse::Fail(pos)
            } else {
                match spec_elements(toks, p2) {
                    Parse::Fail(e2) => Parse::Fail(e2),
                    Parse::Done(rest, p3) => Parse::Done(seq![e] + rest, p3),
                }
            },
        }
    }
}

/// The parse of a whole input string: its token stream, then one element.
/// Tokens after that element are left unread.
pub open spec fn spec_parse_html(s: Seq<char>) -> Parse<ElemModel> {
    spec_element(spec_tokenize(s), 0)
}

/// When the element at `pos` reaches its child list and a child fails: the
/// enclosing element's name, which the error's last contextual note names.
pub open spec fn element_child_failure(toks: Seq<TokModel>, pos: int) -> Option<Seq<char>> {
    if !(0 <= pos < toks.len()) {
        None
    } else {
        match toks[pos] {
            TokModel::LAngle => {
                if pos + 1 < toks.len() {
                    match toks[pos + 1] {
                        TokModel::Text(name) => {
                            match spec_attributes(toks, pos + 2) {
                                Parse::Done(attrs, p2) => {
                                    if p2 < pos + 2 || p2 > toks.len() {
                                        None
                                    } else if p2 < toks.len() && toks[p2] is Slash {
                                        None
                                    } else if !(p2 < toks.len() && toks[p2] is RAngle) {
                                        None
                                    } else if name == "meta"@ || name == "script"@ {
                                        None
                                    } else if spec_elements(toks, p2 + 1) is Fail {
                                        Some(name)
                                    } else {
                                        None
                                    }
                                },
                                Parse::Fail(f) => None,
                            }
                        },
                        _ => None,
                    }
                } else {
                    None
                }
            },
            _ => None,
        }
    }
}

/// The recursive-descent markup parser: a token stream and a scan position.
pub struct HtmlParser {
    pub tokens: Vec<Token>,
    pub position: usize,
}

impl HtmlParser {
    /// The model of the token stream.
    pub open spec fn toks(&self) -> Seq<TokModel> {
        deep_toks(self.tokens@)
    }

    /// The scan position never runs past the end of the stream.
    pub open spec fn wf(&self) -> bool {
        self.position <= self.tokens@.len()
    }

    pub fn new(tokens: Vec<Token>) -> (r: HtmlParser)
        ensures
            r.toks() == deep_toks(tokens@),
            r.position == 0,
            r.wf(),
    {
        HtmlParser { tokens, position: 0 }
    }

    /// The upcoming token, if any.
    pub fn peek(&self) -> (r: Option<&Token>)
        ensures
            match r {
                Some(t) => self.position < self.tokens@.len() && deep_tok(*t) == self.toks()[self.position as int],
                None => self.position >= self.tokens@.len(),
            },
    {
        if self.position < self.tokens.len() {
            Some(&self.tokens[self.position])
        } else {
            None
        }
    }

    /// Whether the upcoming tokens begin with `pattern`.
    pub fn starts_with(&self, pattern: &[Token]) -> (r: bool)
        ensures
            r == (self.position + pattern@.len() <= self.tokens@.len() && self.toks().subrange(
                self.position as int,
                self.position as int + pattern@.len(),
            ) == deep_toks(pattern@)),
    {
        let m = pattern.len();
        let n = self.tokens.len();
        if m > n || self.position > n - m {
            return false;
        }
        let mut i: usize = 0;
        while i < m
            invariant
                m == pattern@.len(),
                n == self.tokens@.len(),
                self.position + m <= n,
                n <= usize::MAX,
                i <= m,
                forall|j: int|
                    0 <= j < i ==> self.toks()[self.position + j] == deep_toks(pattern@)[j],
            decreases m - i,
        {
            if !token_eq(&self.tokens[self.position + i], &pattern[i]) {
                proof {
                    assert(self.toks().subrange(
                        self.position as int,
                        self.position as int + m,
                    )[i as int] != deep_toks(pattern@)[i as int]);
                }
                return false;
            }
            i = i + 1;
        }
        proof {
            assert(self.toks().subrange(self.position as int, self.position as int + m)
                =~= deep_toks(pattern@));
        }
        true
    }

    /// A copy of every token from the scan position to the end, for an error
    /// report.
    fn window(&self) -> (r: Vec<Token>)
        requires
            self.wf(),
        ensures
            deep_toks(r@) == self.toks().skip(self.position as int),
    {
        let mut r: Vec<Token> = Vec::new();
        let n = self.tokens.len();
        let mut i: usize = self.position;
        while i < n
            invariant
                n == self.tokens@.len(),
                self.position <= i <= n,
                deep_toks(r@) == self.toks().subrange(self.position as int, i as int),
            decreases n - i,
        {
            let t = clone_token(&self.tokens[i]);
            proof {
                assert(deep_toks(r@.push(t)) =~= deep_toks(r@).push(deep_tok(t)));
                assert(self.toks().subrange(self.position as int, i as int).push(
                    self.toks()[i as int],
                ) =~= self.toks().subrange(self.position as int, i + 1));
            }
            r.push(t);
            i = i + 1;
        }
        proof {
            assert(self.toks().subrange(self.position as int, n as int) =~= self.toks().skip(
                self.position as int,
            ));
        }
        r
    }

    /// An error at the present position.
    fn fail(&self, expected: String) -> (r: ParseError<Token>)
        requires
            self.wf(),
        ensures
            r.position == self.position,
            deep_toks(r.found@) == self.toks().skip(self.position as int),
            r.expected@ == expected@,
            r.context@.len() == 0,
    {
        ParseError::new(expected, self.window(), self.position)
    }

    /// Consumes the upcoming token when it equals `token`; fails otherwise,
    /// naming the token that was wanted.
    pub fn expect(&mut self, token: Token) -> (r: Result<(), ParseError<Token>>)
        requires
            old(self).wf(),
        ensures
            final(self).tokens == old(self).tokens,
            final(self).wf(),
            match r {
                Ok(()) => old(self).position < old(self).tokens@.len() && old(self).toks()[old(self).position as int] == deep_tok(token) && final(self).position == old(self).position + 1,
                Err(e) => *final(self) == *old(self) && (old(self).position >= old(self).tokens@.len()
                    || old(self).toks()[old(self).position as int] != deep_tok(token))
                    && e.position == old(self).position && deep_toks(e.found@) == old(
                    self,
                ).toks().skip(e.position as int) && e.expected@ == desc_of(deep_tok(token)),
            },
    {
        if self.position >= self.tokens.len() {
            return Err(self.fail(token_desc(&token)));
        }
        if !token_eq(&self.tokens[self.position], &token) {
            return Err(self.fail(token_desc(&token)));
        }
        self.position = self.position + 1;
        Ok(())
    }

    /// Consumes a bare-text token and yields its characters.
    pub fn expect_text(&mut self) -> (r: Result<String, ParseError<Token>>)
        requires
            old(self).wf(),
        ensures
            final(self).tokens == old(self).tokens,
            final(self).wf(),
            match r {
                Ok(s) => old(self).position < old(self).tokens@.len() && old(self).toks()[old(self).position as int] == TokModel::Text(s@) && final(self).position == old(self).position
                    + 1,
                Err(e) => *final(self) == *old(self) && (old(self).position >= old(self).tokens@.len()
                    || !(old(self).toks()[old(self).position as int] is Text)) && e.position
                    == old(self).position && deep_toks(e.found@) == old(self).toks().skip(
                    e.position as int,
                ) && e.expected@ == "text"@,
            },
    {
        if self.position < self.tokens.len() {
            let is_text = matches!(&self.tokens[self.position], Token::Text(_));
            if is_text {
                let s = match &self.tokens[self.position] {
                    Token::Text(text) => text.clone(),
                    _ => String::new(),
                };
                self.position = self.position + 1;
                return Ok(s);
            }
        }
        Err(self.fail(new_string("text")))
    }

    /// Consumes a quoted-text token and yields its characters, which may be
    /// empty.
    pub fn expect_quoted_text(&mut self) -> (r: Result<String, ParseError<Token>>)
        requires
            old(self).wf(),
        ensures
            final(self).tokens == old(self).tokens,
            final(self).wf(),
            match r {
                Ok(s) => old(self).position < old(self).tokens@.len() && old(self).toks()[old(self).position as int] == TokModel::QuotedText(s@) && final(self).position == old(self).position + 1,
                Err(e) => *final(self) == *old(self) && (old(self).position >= old(self).tokens@.len()
                    || !(old(self).toks()[old(self).position as int] is QuotedText))
                    && e.position == old(self).position && deep_toks(e.found@) == old(
                    self,
                ).toks().skip(e.position as int) && e.expected@ == "quoted text"@,
            },
    {
        if self.position < self.tokens.len() {
            let is_quoted = matches!(&self.tokens[self.position], Token::QuotedText(_));
            if is_quoted {
                let s = match &self.tokens[self.position] {
                    Token::QuotedText(text) => text.clone(),
                    _ => String::new(),
                };
                self.position = self.position + 1;
                return Ok(s);
            }
        }
        Err(self.fail(new_string("quoted text")))
    }
}

/// The description of the construct an expectation of each token names.
pub open spec fn desc_of(t: TokModel) -> Seq<char> {
    match t {
        TokModel::LAngle => "'<'"@,
        TokModel::RAngle => "'>'"@,
        TokModel::Slash => "'/'"@,
        TokModel::Equal => "'='"@,
        TokModel::Text(s) => "text"@,
        TokModel::QuotedText(s) => "quoted text"@,
    }
}

/// A short description of a token kind, for an error report.
fn token_desc(t: &Token) -> (r: String)
    ensures
        r@ == desc_of(deep_tok(*t)),
{
    match t {
        Token::LAngle => new_string("'<'"),
        Token::RAngle => new_string("'>'"),
        Token::Slash => new_string("'/'"),
        Token::Equal => new_string("'='"),
        Token::Text(_) => new_string("text"),
        Token::QuotedText(_) => new_string("quoted text"),
    }
}

/// A fresh owned string from a literal.
fn new_string(s: &str) -> (r: String)
    ensures
        r@ == s@,
{
    String::from_str(s)
}

impl HtmlParser {
    /// One attribute: a bare-text key, `=`, then a quoted value.
    pub fn attribute(&mut self) -> (r: Result<(String, String), ParseError<Token>>)
        requires
            old(self).wf(),
        ensures
            final(self).tokens == old(self).tokens,
            final(self).wf(),
            old(self).position <= final(self).position,
            match r {
                Ok(kv) => spec_attribute(old(self).toks(), old(self).position as int)
                    == Parse::Done((kv.0@, kv.1@), final(self).position as int) && final(self).position == old(self).position + 3,
                Err(e) => spec_attribute(old(self).toks(), old(self).position as int)
                    == Parse::<(Seq<char>, Seq<char>)>::Fail(e.position as int) && deep_toks(
                    e.found@,
                ) == old(self).toks().skip(e.position as int),
            },
    {
        let key = match self.expect_text() {
            Ok(k) => k,
            Err(e) => return Err(e),
        };
        match self.expect(Token::Equal) {
            Ok(()) => (),
            Err(e) => return Err(e),
        }
        let value = match self.expect_quoted_text() {
            Ok(v) => v,
            Err(e) => return Err(e),
        };
        Ok((key, value))
    }

    /// Whether the attribute list ends here: at `>` or at a self-closing `/`.
    fn at_attrs_end(&self) -> (r: bool)
        requires
            self.wf(),
        ensures
            r == (self.position < self.tokens@.len() && (self.toks()[self.position as int]
                is RAngle || self.toks()[self.position as int] is Slash)),
    {
        match self.peek() {
            Some(Token::RAngle) => true,
            Some(Token::Slash) => true,
            _ => false,
        }
    }

    /// Attributes up to the closing `>` or a self-closing `/`.
    pub fn attributes(&mut self) -> (r: Result<Vec<(String, String)>, ParseError<Token>>)
        requires
            old(self).wf(),
        ensures
            final(self).tokens == old(self).tokens,
            final(self).wf(),
            old(self).position <= final(self).position,
            match r {
                Ok(v) => spec_attributes(old(self).toks(), old(self).position as int)
                    == Parse::Done(v.deep_view(), final(self).position as int),
                Err(e) => spec_attributes(old(self).toks(), old(self).position as int)
                    == Parse::<Seq<(Seq<char>, Seq<char>)>>::Fail(e.position as int)
                    && deep_toks(e.found@) == old(self).toks().skip(e.position as int),
            },
    {
        let ghost t = self.toks();
        let ghost pos0 = self.position as int;
        let mut attributes: Vec<(String, String)> = Vec::new();
        proof {
            assert(attributes.deep_view() =~= Seq::<(Seq<char>, Seq<char>)>::empty());
        }
        let mut stop = self.at_attrs_end();
        while !stop
            invariant
                self.wf(),
                t == self.toks(),
                self.tokens == old(self).tokens,
                pos0 == old(self).position as int,
                pos0 <= self.position as int,
                stop == (self.position < self.tokens@.len() && (self.toks()[self.position as int]
                    is RAngle || self.toks()[self.position as int] is Slash)),
                match spec_attributes(t, self.position as int) {
                    Parse::Done(rest, p) => spec_attributes(t, pos0) == Parse::<
                        Seq<(Seq<char>, Seq<char>)>,
                    >::Done(attributes.deep_view() + rest, p),
                    Parse::Fail(f) => spec_attributes(t, pos0) == Parse::<
                        Seq<(Seq<char>, Seq<char>)>,
                    >::Fail(f),
                },
            decreases self.tokens@.len() - self.position,
        {
            match self.attribute() {
                Ok(kv) => {
                    proof {
                        assert(attributes.deep_view().push((kv.0@, kv.1@)) =~= (
                        attributes.deep_view() + seq![(kv.0@, kv.1@)]));
                        match spec_attributes(t, self.position as int) {
                            Parse::Done(rest, p) => {
                                assert((attributes.deep_view() + seq![(kv.0@, kv.1@)]) + rest
                                    =~= attributes.deep_view() + (seq![(kv.0@, kv.1@)] + rest));
                            },
                            Parse::Fail(_) => {},
                        }
                    }
                    let ghost before = attributes.deep_view();
                    attributes.push(kv);
                    proof {
                        assert(attributes.deep_view() =~= before.push((kv.0@, kv.1@)));
                    }
                },
                Err(e) => {
                    return Err(e);
                },
            }
            stop = self.at_attrs_end();
        }
        proof {
            assert(attributes.deep_view() + Seq::<(Seq<char>, Seq<char>)>::empty()
                =~= attributes.deep_view());
        }
        Ok(attributes)
    }

    /// Whether the element list ends here: at the end of the stream or at
    /// the closing-tag lookahead `< /`.
    fn at_elements_end(&self) -> (r: bool)
        requires
            self.wf(),
        ensures
            r == (self.position >= self.tokens@.len() || (self.position + 2 <= self.tokens@.len()
                && self.toks()[self.position as int] is LAngle && self.toks()[self.position as int
                + 1] is Slash)),
    {
        if self.position >= self.tokens.len() {
            return true;
        }
        let pat = vec![Token::LAngle, Token::Slash];
        let r = self.starts_with(pat.as_slice());
        proof {
            assert(deep_toks(pat@) =~= seq![TokModel::LAngle, TokModel::Slash]);
            if self.position + 2 <= self.tokens@.len() {
                let sub = self.toks().subrange(self.position as int, self.position as int + 2);
                assert(sub[0] == self.toks()[self.position as int]);
                assert(sub[1] == self.toks()[self.position as int + 1]);
                if self.toks()[self.position as int] is LAngle && self.toks()[self.position as int
                    + 1] is Slash {
                    assert(sub =~= deep_toks(pat@));
                }
            }
        }
        r
    }

    /// Elements until the closing-tag lookahead `< /` or the end of the
    /// stream.
    pub fn elements(&mut self) -> (r: Result<Vec<HtmlElement>, ParseError<Token>>)
        requires
            old(self).wf(),
        ensures
            final(self).tokens == old(self).tokens,
            final(self).wf(),
            old(self).position <= final(self).position,
            match r {
                Ok(v) => spec_elements(old(self).toks(), old(self).position as int) == Parse::Done(
                    deep_elems(v@),
                    final(self).position as int,
                ),
                Err(e) => spec_elements(old(self).toks(), old(self).position as int) == Parse::<
                    Seq<ElemModel>,
                >::Fail(e.position as int) && deep_toks(e.found@) == old(self).toks().skip(
                    e.position as int,
                ) && e.context@.len() > 0 && is_prefix(
                    "element with "@,
                    e.context@[e.context@.len() - 1]@,
                ),
            },
        decreases self.tokens@.len() - self.position, 2int,
    {
        let ghost t = self.toks();
        let ghost pos0 = self.position as int;
        let mut elements: Vec<HtmlElement> = Vec::new();
        proof {
            assert(deep_elems(elements@) =~= Seq::<ElemModel>::empty());
        }
        let mut stop = self.at_elements_end();
        while !stop
            invariant
                self.wf(),
                t == self.toks(),
                self.tokens == old(self).tokens,
                pos0 == old(self).position as int,
                pos0 <= self.position as int,
                stop == (self.position >= self.tokens@.len() || (self.position + 2
                    <= self.tokens@.len() && self.toks()[self.position as int] is LAngle
                    && self.toks()[self.position as int + 1] is Slash)),
                match spec_elements(t, self.position as int) {
                    Parse::Done(rest, p) => spec_elements(t, pos0) == Parse::<
                        Seq<ElemModel>,
                    >::Done(deep_elems(elements@) + rest, p),
                    Parse::Fail(f) => spec_elements(t, pos0) == Parse::<Seq<ElemModel>>::Fail(f),
                },
            decreases self.tokens@.len() - self.position,
        {
            match self.element() {
                Ok(e) => {
                    proof {
                        crate::dom::lemma_deep_elems_push(elements@, e);
                        assert(deep_elems(elements@).push(deep_elem(e)) =~= (deep_elems(elements@)
                            + seq![deep_elem(e)]));
                        match spec_elements(t, self.position as int) {
                            Parse::Done(rest, p) => {
                                assert((deep_elems(elements@) + seq![deep_elem(e)]) + rest
                                    =~= deep_elems(elements@) + (seq![deep_elem(e)] + rest));
                            },
                            Parse::Fail(_) => {},
                        }
                    }
                    elements.push(e);
                },
                Err(e) => {
                    let note = self.window_note();
                    return Err(e.with_context(note));
                },
            }
            stop = self.at_elements_end();
        }
        proof {
            assert(deep_elems(elements@) + Seq::<ElemModel>::empty() =~= deep_elems(elements@));
        }
        Ok(elements)
    }
}

/// Relates the four-token closing pattern of `script` to its model.
proof fn lemma_script_close_pattern(t: Seq<TokModel>, pos: int)
    requires
        0 <= pos,
        pos + 4 <= t.len(),
    ensures
        (t.subrange(pos, pos + 4) == seq![
            TokModel::LAngle,
            TokModel::Slash,
            TokModel::Text("script"@),
            TokModel::RAngle,
        ]) <==> script_close_at(t, pos),
{
    let pat = seq![
        TokModel::LAngle,
        TokModel::Slash,
        TokModel::Text("script"@),
        TokModel::RAngle,
    ];
    let sub = t.subrange(pos, pos + 4);
    assert(sub[0] == t[pos] && sub[1] == t[pos + 1] && sub[2] == t[pos + 2] && sub[3] == t[pos
        + 3]);
    if script_close_at(t, pos) {
        assert(sub =~= pat);
    }
}

impl HtmlParser {
    /// One element: a bare word as a text leaf, or a tagged element with the
    /// name-specific closing rules.
    pub fn element(&mut self) -> (r: Result<HtmlElement, ParseError<Token>>)
        requires
            old(self).wf(),
        ensures
            final(self).tokens == old(self).tokens,
            final(self).wf(),
            old(self).position <= final(self).position,
            match r {
                Ok(e) => spec_element(old(self).toks(), old(self).position as int) == Parse::Done(
                    deep_elem(e),
                    final(self).position as int,
                ) && old(self).position < final(self).position,
                Err(err) => spec_element(old(self).toks(), old(self).position as int) == Parse::<
                    ElemModel,
                >::Fail(err.position as int) && deep_toks(err.found@) == old(self).toks().skip(
                    err.position as int,
                ) && (match element_child_failure(old(self).toks(), old(self).position as int) {
                    Some(n) => err.context@.len() > 0 && err.context@[err.context@.len() - 1]@
                        == "children of "@ + n,
                    None => true,
                }),
            },
        decreases self.tokens@.len() - self.position, 1int,
    {
        let ghost t = self.toks();
        let ghost pos0 = self.position as int;

        let is_text = matches!(self.peek(), Some(Token::Text(_)));
        if is_text {
            let word = match self.expect_text() {
                Ok(w) => w,
                Err(e) => return Err(e),
            };
            let e = HtmlElement {
                name: new_string("textNode"),
                attributes: Vec::new(),
                children: Vec::new(),
                text_node: Some(word),
            };
            proof {
                assert(e.attributes.deep_view() =~= Seq::<(Seq<char>, Seq<char>)>::empty());
                assert(e.children@ =~= Seq::<HtmlElement>::empty());
                assert(deep_elem(e) == text_leaf(word@));
            }
            return Ok(e);
        }
        match self.expect(Token::LAngle) {
            Ok(()) => (),
            Err(e) => return Err(e),
        }
        let name = match self.expect_text() {
            Ok(n) => n,
            Err(e) => return Err(e),
        };
        proof {
            assert(spec_element(t, pos0) == spec_tagged_rest(t, pos0, name@));
        }
        let attributes = match self.attributes() {
            Ok(a) => a,
            Err(e) => return Err(e),
        };
        let ghost p2 = self.position as int;

        let self_closing = matches!(self.peek(), Some(Token::Slash));
        if self_closing {
            match self.expect(Token::Slash) {
                Ok(()) => (),
                Err(e) => return Err(e),
            }
            match self.expect(Token::RAngle) {
                Ok(()) => (),
                Err(e) => return Err(e),
            }
            let e = HtmlElement { name, attributes, children: Vec::new(), text_node: None };
            proof {
                assert(e.children@ =~= Seq::<HtmlElement>::empty());
                assert(deep_elem(e) == childless(e.name@, e.attributes.deep_view()));
            }
            return Ok(e);
        }
        match self.expect(Token::RAngle) {
            Ok(()) => (),
            Err(e) => return Err(e),
        }
        if str_eq(name.as_str(), "meta") {
            let e = HtmlElement { name, attributes, children: Vec::new(), text_node: None };
            proof {
                assert(e.children@ =~= Seq::<HtmlElement>::empty());
                assert(deep_elem(e) == childless(e.name@, e.attributes.deep_view()));
            }
            return Ok(e);
        }
        if str_eq(name.as_str(), "script") {
            let ghost p3 = self.position as int;
            let close_pat = vec![
                Token::LAngle,
                Token::Slash,
                Token::Text(new_string("script")),
                Token::RAngle,
            ];
            proof {
                assert(deep_toks(close_pat@) =~= seq![
                    TokModel::LAngle,
                    TokModel::Slash,
                    TokModel::Text("script"@),
                    TokModel::RAngle,
                ]);
            }
            let n = self.tokens.len();
            let mut found = self.starts_with(close_pat.as_slice());
            proof {
                if self.position + 4 <= n {
                    lemma_script_close_pattern(t, self.position as int);
                }
            }
            #[verifier::loop_isolation(false)]
            while !found
                invariant
                    self.wf(),
                    t == self.toks(),
                    self.tokens == old(self).tokens,
                    p3 <= self.position as int,
                    scan_script_close(t, p3) == scan_script_close(t, self.position as int),
                    found == (self.position + 4 <= n && script_close_at(t, self.position as int)),
                decreases n - self.position,
            {
                let room = n >= 4 && self.position <= n - 4;
                if !room {
                    proof {
                        assert(scan_script_close(t, self.position as int) == n as int);
                    }
                    return Err(
                        ParseError::new(
                            new_string("the closing sequence of a script element"),
                            Vec::new(),
                            n,
                        ),
                    );
                }
                self.position = self.position + 1;
                found = self.starts_with(close_pat.as_slice());
                proof {
                    if self.position + 4 <= n {
                        lemma_script_close_pattern(t, self.position as int);
                    }
                }
            }
            proof {
                assert(scan_script_close(t, self.position as int) == self.position as int);
            }
            match self.expect(Token::LAngle) {
                Ok(()) => (),
                Err(e) => return Err(e),
            }
            match self.expect(Token::Slash) {
                Ok(()) => (),
                Err(e) => return Err(e),
            }
            match self.expect(Token::Text(new_string("script"))) {
                Ok(()) => (),
                Err(e) => return Err(e),
            }
            match self.expect(Token::RAngle) {
                Ok(()) => (),
                Err(e) => return Err(e),
            }
            let e = HtmlElement { name, attributes, children: Vec::new(), text_node: None };
            proof {
                assert(e.children@ =~= Seq::<HtmlElement>::empty());
                assert(deep_elem(e) == childless(e.name@, e.attributes.deep_view()));
            }
            return Ok(e);
        }
        let ghost p3 = self.position as int;
        let children = match self.elements() {
            Ok(c) => c,
            Err(e2) => {
                return Err(e2.with_context(children_note(&name)));
            },
        };
        let ghost p4 = self.position as int;
        match self.expect(Token::LAngle) {
            Ok(()) => (),
            Err(e) => return Err(e),
        }
        match self.expect(Token::Slash) {
            Ok(()) => (),
            Err(e) => return Err(e),
        }
        match self.expect(Token::Text(name.clone())) {
            Ok(()) => (),
            Err(e) => return Err(e),
        }
        match self.expect(Token::RAngle) {
            Ok(()) => (),
            Err(e) => return Err(e),
        }
        let e = HtmlElement { name, attributes, children, text_node: None };
        proof {
            assert(deep_elem(e) == ElemModel {
                name: e.name@,
                attributes: e.attributes.deep_view(),
                children: deep_elems(e.children@),
                text_node: None,
            });
        }
        Ok(e)
    }
}

impl HtmlParser {
    /// The contextual note an element-list failure carries, naming the
    /// upcoming tokens at the failure: up to five of them.
    fn window_note(&self) -> (r: String)
        requires
            self.wf(),
        ensures
            is_prefix("element with "@, r@),
    {
        let mut s = String::from_str("element with ");
        proof {
            assert(s@.subrange(0, s@.len() as int) =~= s@);
        }
        let n = self.tokens.len();
        let mut j: usize = self.position;
        let mut count: usize = 0;
        while j < n && count < 5
            invariant
                n == self.tokens@.len(),
                self.position <= j <= n,
                is_prefix("element with "@, s@),
            decreases n - j,
        {
            let ghost before = s@;
            let d = token_desc(&self.tokens[j]);
            s.append(d.as_str());
            s.append(" ");
            proof {
                crate::overrides::lemma_prefix_extend("element with "@, before, d@ + " "@);
                assert(s@ =~= before + (d@ + " "@));
            }
            j = j + 1;
            count = count + 1;
        }
        s
    }
}

/// The contextual note that wraps a failure among an element's children.
fn children_note(name: &String) -> (r: String)
    ensures
        r@ == "children of "@ + name@,
{
    let mut s = String::from_str("children of ");
    s.append(name.as_str());
    s
}

/// Parses a whole markup string: its token stream, then one element.
/// Returns the element, or the structured error of the first failure; no
/// partial tree is ever returned.
pub fn parse_html(input: String) -> (r: Result<HtmlElement, ParseError<Token>>)
    ensures
        match r {
            Ok(e) => spec_parse_html(input@) matches Parse::Done(em, p) && em == deep_elem(e),
            Err(err) => spec_parse_html(input@) matches Parse::Fail(p) && p == err.position as int
                && deep_toks(err.found@) == spec_tokenize(input@).skip(err.position as int) && (
            match element_child_failure(spec_tokenize(input@), 0) {
                Some(n) => err.context@.len() > 0 && err.context@[err.context@.len() - 1]@
                    == "children of "@ + n,
                None => true,
            }),
        },
{
    let tokens = tokenize_html(input.as_str());
    let mut parser = HtmlParser::new(tokens);
    let element = match parser.element() {
        Ok(e) => e,
        Err(e) => return Err(e),
    };
    Ok(element)
}

/// The characters of a bare-text token; empty for any other token.
pub open spec fn tok_text(t: TokModel) -> Seq<char> {
    match t {
        TokModel::Text(s) => s,
        _ => Seq::empty(),
    }
}

/// A run of N bare-text tokens inside an element body parses to exactly N
/// text leaves, in the original order, each holding one word: adjacent
/// words become adjacent sibling leaves, never merged.
pub proof fn lemma_text_run_elements(toks: Seq<TokModel>, pos: int, end: int)
    requires
        0 <= pos <= end <= toks.len(),
        forall|j: int| pos <= j < end ==> toks[j] is Text,
        end == toks.len() || (toks[end] is LAngle && end + 1 < toks.len() && toks[end + 1]
            is Slash),
    ensures
        spec_elements(toks, pos) matches Parse::Done(es, p) && p == end && es.len() == end - pos
            && (forall|k: int|
            0 <= k < end - pos ==> es[k] == text_leaf(tok_text(toks[pos + k]))),
    decreases end - pos,
{
    if pos == end {
        assert(spec_elements(toks, pos) == Parse::<Seq<ElemModel>>::Done(Seq::empty(), pos));
    } else {
        assert(toks[pos] is Text);
        assert(spec_element(toks, pos) == Parse::<ElemModel>::Done(
            text_leaf(tok_text(toks[pos])),
            pos + 1,
        ));
        lemma_text_run_elements(toks, pos + 1, end);
        let rest = spec_elements(toks, pos + 1);
        match rest {
            Parse::Done(es1, p1) => {
                let leaf = text_leaf(tok_text(toks[pos]));
                let es = seq![leaf] + es1;
                assert(spec_elements(toks, pos) == Parse::<Seq<ElemModel>>::Done(es, p1));
                assert forall|k: int| 0 <= k < end - pos implies es[k] == text_leaf(
                    tok_text(toks[pos + k]),
                ) by {
                    if k > 0 {
                        assert(es[k] == es1[k - 1]);
                    }
                }
            },
            Parse::Fail(f) => {
                assert(false);
            },
        }
    }
}

/// `meta` and `script` elements always parse with zero children and no
/// text payload, whatever stands inside a `script`.
pub proof fn lemma_meta_script_childless(toks: Seq<TokModel>, pos: int)
    ensures
        match spec_element(toks, pos) {
            Parse::Done(em, p) => (em.name == "meta"@ || em.name == "script"@) ==> (
            em.children.len() == 0 && em.text_node is None),
            Parse::Fail(f) => true,
        },
{
    reveal_strlit("meta");
    reveal_strlit("script");
    reveal_strlit("textNode");
    if spec_element(toks, pos) is Done {
        if 0 <= pos < toks.len() {
            match toks[pos] {
                TokModel::Text(word) => {
                    assert(spec_element(toks, pos) == Parse::<ElemModel>::Done(
                        text_leaf(word),
                        pos + 1,
                    ));
                    assert(text_leaf(word).name == "textNode"@);
                    assert("textNode"@ != "meta"@ && "textNode"@ != "script"@);
                },
                TokModel::LAngle => {
                    if pos + 1 < toks.len() {
                        match toks[pos + 1] {
                            TokModel::Text(name) => {
                                lemma_tagged_childless(toks, pos, name);
                            },
                            _ => {},
                        }
                    }
                },
                _ => {},
            }
        }
    }
}

proof fn lemma_tagged_childless(toks: Seq<TokModel>, pos: int, name: Seq<char>)
    ensures
        match spec_tagged_rest(toks, pos, name) {
            Parse::Done(em, p) => (em.name == "meta"@ || em.name == "script"@) ==> (
            em.children.len() == 0 && em.text_node is None),
            Parse::Fail(f) => true,
        },
{
    if spec_tagged_rest(toks, pos, name) is Done && 0 <= pos + 2 {
        match spec_attributes(toks, pos + 2) {
            Parse::Done(attrs, p2) => {
                if !(p2 < pos + 2 || p2 > toks.len()) {
                    if p2 < toks.len() && toks[p2] is Slash {
                    } else if p2 < toks.len() && toks[p2] is RAngle {
                        if name == "meta"@ || name == "script"@ {
                        } else {
                            // the closing form keeps the opening name, which
                            // is neither of the two
                            match spec_elements(toks, p2 + 1) {
                                Parse::Done(kids, p4) => {},
                                Parse::Fail(f) => {},
                            }
                        }
                    }
                }
            },
            Parse::Fail(f) => {},
        }
    }
}

/// A self-closing tag (`'/'` right before `'>'`) always parses to a
/// childless element, whatever its name, and consumes nothing past its
/// closing `'>'`: no matching closing tag is ever expected.
pub proof fn lemma_self_closing(
    toks: Seq<TokModel>,
    pos: int,
    name: Seq<char>,
    attrs: Seq<(Seq<char>, Seq<char>)>,
    p2: int,
)
    requires
        0 <= pos < toks.len(),
        toks[pos] is LAngle,
        pos + 1 < toks.len(),
        toks[pos + 1] == TokModel::Text(name),
        spec_attributes(toks, pos + 2) == Parse::<Seq<(Seq<char>, Seq<char>)>>::Done(attrs, p2),
        pos + 2 <= p2,
        p2 + 1 < toks.len(),
        toks[p2] is Slash,
        toks[p2 + 1] is RAngle,
    ensures
        spec_element(toks, pos) == Parse::<ElemModel>::Done(childless(name, attrs), p2 + 2),
{
}

/// A closing tag whose name differs from the opening tag's makes the whole
/// element fail with a structural error at the closing name, never
/// silently succeed.
pub proof fn lemma_mismatched_closing_fails(
    toks: Seq<TokModel>,
    pos: int,
    name: Seq<char>,
    attrs: Seq<(Seq<char>, Seq<char>)>,
    p2: int,
    kids: Seq<ElemModel>,
    p4: int,
    closing: Seq<char>,
)
    requires
        0 <= pos < toks.len(),
        toks[pos] is LAngle,
        pos + 1 < toks.len(),
        toks[pos + 1] == TokModel::Text(name),
        name != "meta"@,
        name != "script"@,
        spec_attributes(toks, pos + 2) == Parse::<Seq<(Seq<char>, Seq<char>)>>::Done(attrs, p2),
        pos + 2 <= p2 < toks.len(),
        toks[p2] is RAngle,
        spec_elements(toks, p2 + 1) == Parse::<Seq<ElemModel>>::Done(kids, p4),
        0 <= p4,
        p4 < toks.len() && toks[p4] is LAngle,
        p4 + 1 < toks.len() && toks[p4 + 1] is Slash,
        p4 + 2 < toks.len() && toks[p4 + 2] == TokModel::Text(closing),
        closing != name,
    ensures
        spec_element(toks, pos) == Parse::<ElemModel>::Fail(p4 + 2),
{
}

/// Lexing and parsing N whitespace-separated words inside an element body
/// yields exactly N text leaves, in the original order, each holding one
/// word.
pub proof fn lemma_words_parse(words: Seq<Seq<char>>)
    requires
        forall|k: int| 0 <= k < words.len() ==> crate::lex::is_word(#[trigger] words[k]),
    ensures
        spec_tokenize(crate::lex::spaced(words)) == words.map_values(
            |w: Seq<char>| TokModel::Text(w),
        ),
        spec_elements(words.map_values(|w: Seq<char>| TokModel::Text(w)), 0) matches Parse::Done(
            es,
            p,
        ) && p == words.len() && es == words.map_values(|w: Seq<char>| text_leaf(w)),
{
    crate::lex::lemma_words_tokenize(words);
    let toks = words.map_values(|w: Seq<char>| TokModel::Text(w));
    lemma_text_run_elements(toks, 0, toks.len() as int);
    match spec_elements(toks, 0) {
        Parse::Done(es, p) => {
            assert forall|k: int| 0 <= k < words.len() implies es[k] == words.map_values(
                |w: Seq<char>| text_leaf(w),
            )[k] by {
                assert(es[k] == text_leaf(tok_text(toks[k])));
                assert(tok_text(toks[k]) == words[k]);
            }
            assert(es =~= words.map_values(|w: Seq<char>| text_leaf(w)));
        },
        Parse::Fail(f) => {
            assert(false);
        },
    }
}

/// The stream never opens a tag under the reserved text-leaf name: no `<`
/// is followed by the bare text `textNode`.  This is the data model's
/// reserved-name discipline at the token level; a source that writes
/// `<textNode>` as a tag breaks it.
pub open spec fn reserved_tag_free(toks: Seq<TokModel>) -> bool {
    forall|j: int|
        0 <= j && j + 1 < toks.len() ==> !((#[trigger] toks[j]) is LAngle && toks[j + 1]
            == TokModel::Text("textNode"@))
}

/// On a reserved-name-respecting stream, every tree the parser builds keeps
/// the data model's invariant: text leaves carry words, never subtrees.
/// With it, the scope-cleanup law of the layout engine applies to every
/// parsed document.
pub proof fn lemma_parsed_no_text_children(toks: Seq<TokModel>, pos: int)
    requires
        reserved_tag_free(toks),
    ensures
        spec_element(toks, pos) matches Parse::Done(em, p) ==> crate::dom::no_text_children(em),
    decreases toks.len() - pos, 1int,
{
    if 0 <= pos < toks.len() {
        match toks[pos] {
            TokModel::Text(word) => {
                let em = text_leaf(word);
                assert(em.children.len() == 0);
                assert(crate::dom::no_text_children_all(em.children));
            },
            TokModel::LAngle => {
                if pos + 1 < toks.len() {
                    match toks[pos + 1] {
                        TokModel::Text(name) => {
                            assert(name != "textNode"@);
                            lemma_parsed_no_text_children_tagged(toks, pos, name);
                        },
                        _ => {},
                    }
                }
            },
            _ => {},
        }
    }
}

proof fn lemma_parsed_no_text_children_tagged(toks: Seq<TokModel>, pos: int, name: Seq<char>)
    requires
        reserved_tag_free(toks),
        name != "textNode"@,
    ensures
        spec_tagged_rest(toks, pos, name) matches Parse::Done(em, p) ==> crate::dom::no_text_children(
            em,
        ),
    decreases toks.len() - pos, 0int,
{
    if 0 <= pos + 2 {
        match spec_attributes(toks, pos + 2) {
            Parse::Done(attrs, p2) => {
                if !(p2 < pos + 2 || p2 > toks.len()) {
                    if p2 < toks.len() && toks[p2] is Slash {
                        assert(crate::dom::no_text_children_all(
                            childless(name, attrs).children,
                        ));
                    } else if p2 < toks.len() && toks[p2] is RAngle {
                        if name == "meta"@ || name == "script"@ {
                            assert(crate::dom::no_text_children_all(
                                childless(name, attrs).children,
                            ));
                        } else {
                            match spec_elements(toks, p2 + 1) {
                                Parse::Done(kids, p4) => {
                                    lemma_parsed_no_text_children_list(toks, p2 + 1);
                                },
                                Parse::Fail(f) => {},
                            }
                        }
                    }
                }
            },
            Parse::Fail(f) => {},
        }
    }
}

proof fn lemma_parsed_no_text_children_list(toks: Seq<TokModel>, pos: int)
    requires
        reserved_tag_free(toks),
    ensures
        spec_elements(toks, pos) matches Parse::Done(es, p) ==> crate::dom::no_text_children_all(
            es,
        ),
    decreases toks.len() - pos, 2int,
{
    if 0 <= pos < toks.len() && !(toks[pos] is LAngle && pos + 1 < toks.len() && toks[pos + 1]
        is Slash) {
        lemma_parsed_no_text_children(toks, pos);
        match spec_element(toks, pos) {
            Parse::Done(e, p2) => {
                if !(p2 <= pos || p2 > toks.len()) {
                    lemma_parsed_no_text_children_list(toks, p2);
                    match spec_elements(toks, p2) {
                        Parse::Done(rest, p3) => {
                            let es = seq![e] + rest;
                            assert forall|i: int|
                                0 <= i < es.len() implies crate::dom::no_text_children(
                                #[trigger] es[i],
                            ) by {
                                if i > 0 {
                                    assert(es[i] == rest[i - 1]);
                                }
                            }
                        },
                        Parse::Fail(f) => {},
                    }
                }
            },
            Parse::Fail(f) => {},
        }
    }
}

/// The markup document that wraps a row of words in one element: the
/// opening tag, the words separated by single spaces, the closing tag.
pub open spec fn words_document(t: Seq<char>, words: Seq<Seq<char>>) -> Seq<char> {
    seq!['<'] + t + seq!['>'] + crate::lex::spaced(words) + seq!['<', '/'] + t + seq!['>']
}

/// The token stream of such a document: the opening tag, one bare-text
/// token per word, the closing tag.
#[verifier::rlimit(50)]
proof fn lemma_words_document_tokens(t: Seq<char>, words: Seq<Seq<char>>)
    requires
        crate::lex::is_word(t),
        t[0] != '!',
        forall|k: int| 0 <= k < words.len() ==> crate::lex::is_word(#[trigger] words[k]),
    ensures
        spec_tokenize(words_document(t, words)) == seq![
            TokModel::LAngle,
            TokModel::Text(t),
            TokModel::RAngle,
        ] + words.map_values(|w: Seq<char>| TokModel::Text(w)) + seq![
            TokModel::LAngle,
            TokModel::Slash,
            TokModel::Text(t),
            TokModel::RAngle,
        ],
{
    let cs = words_document(t, words);
    let tl = t.len() as int;
    let b = crate::lex::spaced(words);
    let sl = b.len() as int;
    let q = 2 + tl + sl;
    let n = q + 3 + tl;
    assert(cs.len() == n);
    assert(cs[0] == '<');
    assert forall|j: int| 0 <= j < tl implies cs[1 + j] == t[j] by {
        assert((seq!['<'] + t)[1 + j] == t[j]);
    }
    assert(cs[1 + tl] == '>');
    assert forall|j: int| 0 <= j < sl implies cs[2 + tl + j] == b[j] by {
        assert((seq!['<'] + t + seq!['>'] + b)[2 + tl + j] == b[j]);
    }
    assert(cs[q] == '<');
    assert(cs[q + 1] == '/');
    assert forall|j: int| 0 <= j < tl implies cs[q + 2 + j] == t[j] by {
        assert((seq!['<'] + t + seq!['>'] + b + seq!['<', '/'] + t)[q + 2 + j] == t[j]);
    }
    assert(cs[q + 2 + tl] == '>');

    assert(tl > 0 && crate::lex::is_text_char(t[0]) && t[0] != '/');
    crate::lex::lemma_not_doctype_second(cs, 0);
    assert(lex_from(cs, 0) == seq![TokModel::LAngle] + lex_from(cs, 1));
    assert forall|j: int| 1 <= j < 1 + tl implies crate::lex::is_text_char(
        #[trigger] cs[j],
    ) by {
        assert(cs[j] == t[j - 1]);
    }
    assert(!crate::lex::is_text_char(cs[1 + tl]));
    crate::lex::lemma_word_run(cs, 1, 1 + tl);
    assert(cs.subrange(1, 1 + tl) =~= t);
    crate::lex::lemma_not_doctype_at(cs, 1 + tl);
    assert(lex_from(cs, 1 + tl) == seq![TokModel::RAngle] + lex_from(cs, 2 + tl));
    assert(cs.subrange(2 + tl, q) =~= b);
    assert(!crate::lex::is_text_char(cs[q]));
    crate::lex::lemma_words_lex_mid(cs, 2 + tl, q, words);
    crate::lex::lemma_not_doctype_second(cs, q);
    assert(lex_from(cs, q) == seq![TokModel::LAngle] + lex_from(cs, q + 1));
    crate::lex::lemma_not_doctype_at(cs, q + 1);
    assert(lex_from(cs, q + 1) == seq![TokModel::Slash] + lex_from(cs, q + 2));
    assert forall|j: int| q + 2 <= j < q + 2 + tl implies crate::lex::is_text_char(
        #[trigger] cs[j],
    ) by {
        assert(cs[j] == t[j - (q + 2)]);
    }
    assert(!crate::lex::is_text_char(cs[q + 2 + tl]));
    assert(cs[q + 2] == t[0]);
    crate::lex::lemma_word_run(cs, q + 2, q + 2 + tl);
    assert(cs.subrange(q + 2, q + 2 + tl) =~= t);
    crate::lex::lemma_not_doctype_at(cs, q + 2 + tl);
    assert(lex_from(cs, q + 2 + tl) == seq![TokModel::RAngle] + lex_from(cs, n));
    assert(lex_from(cs, n) =~= Seq::<TokModel>::empty());
    assert(spec_tokenize(cs) =~= seq![TokModel::LAngle, TokModel::Text(t), TokModel::RAngle]
        + words.map_values(|w: Seq<char>| TokModel::Text(w)) + seq![
        TokModel::LAngle,
        TokModel::Slash,
        TokModel::Text(t),
        TokModel::RAngle,
    ]);
}

/// A document holding N whitespace-separated words inside one element
/// parses to that element with exactly N text leaves as its children, in
/// the original order, each holding one word: adjacent words are never
/// merged.  The element's name must be a plain word that opens no other
/// construct and is not one of the childless special names.
#[verifier::rlimit(50)]
pub proof fn lemma_words_in_element_parse(t: Seq<char>, words: Seq<Seq<char>>)
    requires
        crate::lex::is_word(t),
        t[0] != '!',
        t != "meta"@,
        t != "script"@,
        forall|k: int| 0 <= k < words.len() ==> crate::lex::is_word(#[trigger] words[k]),
    ensures
        spec_parse_html(words_document(t, words)) matches Parse::Done(em, p) && em.name == t
            && em.text_node is None && em.children.len() == words.len() && (forall|k: int|
            0 <= k < words.len() ==> em.children[k] == text_leaf(words[k])),
{
    lemma_words_document_tokens(t, words);
    let nw = words.len() as int;
    let wtoks = words.map_values(|w: Seq<char>| TokModel::Text(w));
    let toks = seq![TokModel::LAngle, TokModel::Text(t), TokModel::RAngle] + wtoks + seq![
        TokModel::LAngle,
        TokModel::Slash,
        TokModel::Text(t),
        TokModel::RAngle,
    ];
    let nn = toks.len() as int;
    assert(nn == 7 + nw);
    assert(toks[0] is LAngle);
    assert(toks[1] == TokModel::Text(t));
    assert(toks[2] is RAngle);
    assert forall|k: int| 0 <= k < nw implies toks[3 + k] == TokModel::Text(
        #[trigger] words[k],
    ) by {
        assert(toks[3 + k] == wtoks[k]);
    }
    assert(toks[3 + nw] is LAngle);
    assert(toks[3 + nw + 1] is Slash);
    assert(toks[3 + nw + 2] == TokModel::Text(t));
    assert(toks[3 + nw + 3] is RAngle);

    assert(spec_attributes(toks, 2) == Parse::<Seq<(Seq<char>, Seq<char>)>>::Done(
        Seq::empty(),
        2,
    ));
    lemma_text_run_elements(toks, 3, 3 + nw);
    match spec_elements(toks, 3) {
        Parse::Done(kids, pk) => {
            assert(pk == 3 + nw);
            assert(spec_closing_tag(toks, 3 + nw, t, Seq::empty(), kids) == Parse::<
                ElemModel,
            >::Done(
                ElemModel { name: t, attributes: Seq::empty(), children: kids, text_node: None },
                3 + nw + 4,
            ));
            assert(spec_tagged_rest(toks, 0, t) == Parse::<ElemModel>::Done(
                ElemModel { name: t, attributes: Seq::empty(), children: kids, text_node: None },
                3 + nw + 4,
            ));
            assert forall|k: int| 0 <= k < nw implies kids[k] == text_leaf(
                #[trigger] words[k],
            ) by {
                assert(kids[k] == text_leaf(tok_text(toks[3 + k])));
            }
        },
        Parse::Fail(f) => {
            assert(false);
        },
    }
}

} // verus!
