//! A small markup and stylesheet front end with a verified flow-layout engine:
//! a lexer and recursive-descent parser for an HTML-like language, a companion
//! parser for a minimal CSS declaration dialect, and a depth-first traversal
//! of the parsed tree that maintains positional state, hyperlink hit-boxes and
//! scope-bounded spacing overrides.
pub mod color;
pub mod css;
pub mod dom;
pub mod error;
pub mod html;
pub mod layout;
pub mod lex;
pub mod overrides;
pub mod strutil;
pub mod walk;
