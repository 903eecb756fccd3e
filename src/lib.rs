//! A lexer for a small language of argument-validation predicates: counters
//! (`%1`), variables (`$x`), comparisons, boolean connectives, grouping,
//! argument separators, numbers, quoted strings, `/regex/` literals, boolean
//! keywords and backslash-escaped operators.
//!
//! Scanning is maximal munch over an ordered rule table: at each position the
//! longest match over all rules wins, the earlier rule on a tie, and a
//! character that no rule matches becomes a one-character `Error` token.
//! `tokenize` emits whitespace tokens, so the tokens tile the input;
//! `tokenize_skipping_whitespace` leaves them out.
use vstd::prelude::*;

pub mod laws;
pub mod rules;
pub mod safe_regex;
pub mod scanner;
pub mod token;

pub use safe_regex::{compile, CompileError, Re};
pub use scanner::{tokenize, tokenize_skipping_whitespace};
pub use token::{Token, TokenKind};

verus! {

} // verus!
