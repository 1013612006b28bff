//! The structured error that both parsers report.
//!
//! A failure names the expected construct, shows the remaining tokens from
//! the failure position on, gives that position, and carries contextual
//! notes naming the enclosing constructs, innermost first.  A parse is not
//! recoverable: the first failure aborts it with no partial result.
use vstd::prelude::*;

verus! {

/// The outcome of a parse at the specification level: the parsed value and
/// the position after it, or the position of the failure.
pub enum Parse<T> {
    Done(T, int),
    Fail(int),
}

#[derive(Debug)]
pub struct ParseError<Tok> {
    /// What the parser was looking for.
    pub expected: String,
    /// The tokens from the failure position to the end of the input.
    pub found: Vec<Tok>,
    /// The index of the failure in the token stream.
    pub position: usize,
    /// Notes naming the enclosing constructs, innermost first.
    pub context: Vec<String>,
}

impl<Tok> ParseError<Tok> {
    /// A new error at `position`, expecting `expected`, with the remaining
    /// tokens `found`.
    pub fn new(expected: String, found: Vec<Tok>, position: usize) -> (r: ParseError<Tok>)
        ensures
            r.expected == expected,
            r.found == found,
            r.position == position,
            r.context@.len() == 0,
    {
        ParseError { expected, found, position, context: Vec::new() }
    }

    /// Adds one contextual note, keeping everything else.
    pub fn with_context(self, note: String) -> (r: ParseError<Tok>)
        ensures
            r.expected == self.expected,
            r.found == self.found,
            r.position == self.position,
            r.context@ == self.context@.push(note),
    {
        let mut e = self;
        e.context.push(note);
        e
    }
}

} // verus!
