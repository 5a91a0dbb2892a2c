//! The lexical categories of the grammar-description notation, and the text
//! trimming done when a quoted literal or a code fragment is matched. The
//! tokenizer that produces these tokens drives an outside lexing engine and
//! lives with the front end.
use vstd::prelude::*;
use vstd::string::{StrSliceExecFns, StringExecFns};

verus! {

/// A lexical token of the grammar-description notation.
#[derive(Debug, Clone, PartialEq)]
pub enum Token {
    Identifier(String),
    Literal(String),
    Code(String),
    Comma,
    Preamble,
    Tokens,
    Rules,
    Pub,
    LParen,
    RParen,
    LBrace,
    RBrace,
    LAngle,
    RAngle,
    Assign,
    Colon,
    Arrow,
    TyArrow,
    Tok,
    Reg,
    Error,
}

/// The value of a matched quoted literal: the slice without its two quotes.
pub fn literal_text(slice: &str) -> (r: String)
    requires
        slice@.len() >= 2,
    ensures
        r@ == slice@.subrange(1, slice@.len() - 1),
{
    let n = slice.unicode_len();
    let sub = slice.substring_char(1, n - 1);
    String::from_str(sub)
}

/// The value of a matched code fragment: the slice without its two-character
/// opening and closing delimiters.
pub fn code_text(slice: &str) -> (r: String)
    requires
        slice@.len() >= 4,
    ensures
        r@ == slice@.subrange(2, slice@.len() - 2),
{
    let n = slice.unicode_len();
    let sub = slice.substring_char(2, n - 2);
    String::from_str(sub)
}

} // verus!
