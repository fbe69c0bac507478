//! JSON errors.

use vstd::prelude::*;
use crate::decimal::{digit_chars, push_decimal};
use crate::string::ops::push_char;

verus! {

/// Why a JSON text could not be decoded.
#[derive(Debug, Clone, PartialEq, Eq, Structural)]
pub enum JsonError {
    /// The input ended early.
    UnexpectedEof,
    /// Unexpected character at a position.
    UnexpectedChar(char, usize),
    /// An object key (a string) was expected.
    ExpectedString(usize),
    /// A colon was expected after a key.
    ExpectedColon(usize),
    /// A comma or `}` was expected.
    ExpectedCommaOrBrace(usize),
    /// A comma or `]` was expected.
    ExpectedCommaOrBracket(usize),
    /// A string starting at a position has no closing quote.
    UnterminatedString(usize),
    /// Invalid number at a position.
    InvalidNumber(usize),
    /// Invalid `true`, `false` or `null`.
    InvalidLiteral(usize),
    /// Data after the JSON value.
    TrailingData(usize),
    /// Nesting too deep.
    MaxDepthExceeded,
    /// Invalid UTF-8.
    InvalidUtf8,
}

/// The description of a JSON error.
pub open spec fn json_error_text(e: JsonError) -> Seq<char> {
    match e {
        JsonError::UnexpectedEof => "Unexpected end of JSON input"@,
        JsonError::UnexpectedChar(c, pos) => "Unexpected character '"@ + seq![c] + "' at position "@
            + digit_chars(pos as nat),
        JsonError::ExpectedString(pos) => "Expected string at position "@ + digit_chars(pos as nat),
        JsonError::ExpectedColon(pos) => "Expected ':' at position "@ + digit_chars(pos as nat),
        JsonError::ExpectedCommaOrBrace(pos) => "Expected ',' or '}' at position "@ + digit_chars(pos as nat),
        JsonError::ExpectedCommaOrBracket(pos) => "Expected ',' or ']' at position "@ + digit_chars(pos as nat),
        JsonError::UnterminatedString(pos) => "Unterminated string starting at position "@ + digit_chars(pos as nat),
        JsonError::InvalidNumber(pos) => "Invalid number at position "@ + digit_chars(pos as nat),
        JsonError::InvalidLiteral(pos) => "Invalid literal at position "@ + digit_chars(pos as nat),
        JsonError::TrailingData(pos) => "Trailing data after JSON value at position "@ + digit_chars(pos as nat),
        JsonError::MaxDepthExceeded => "Maximum nesting depth exceeded"@,
        JsonError::InvalidUtf8 => "Invalid UTF-8 in JSON string"@,
    }
}

impl JsonError {
    /// A description of the error, with its position.
    pub fn message(&self) -> (r: String)
        ensures
            r@ == json_error_text(*self),
    {
        let mut out = String::new();
        match self {
            JsonError::UnexpectedEof => out.append("Unexpected end of JSON input"),
            JsonError::UnexpectedChar(c, pos) => {
                out.append("Unexpected character '");
                push_char(&mut out, *c);
                out.append("' at position ");
                push_decimal(&mut out, *pos);
            },
            JsonError::ExpectedString(pos) => {
                out.append("Expected string at position ");
                push_decimal(&mut out, *pos);
            },
            JsonError::ExpectedColon(pos) => {
                out.append("Expected ':' at position ");
                push_decimal(&mut out, *pos);
            },
            JsonError::ExpectedCommaOrBrace(pos) => {
                out.append("Expected ',' or '}' at position ");
                push_decimal(&mut out, *pos);
            },
            JsonError::ExpectedCommaOrBracket(pos) => {
                out.append("Expected ',' or ']' at position ");
                push_decimal(&mut out, *pos);
            },
            JsonError::UnterminatedString(pos) => {
                out.append("Unterminated string starting at position ");
                push_decimal(&mut out, *pos);
            },
            JsonError::InvalidNumber(pos) => {
                out.append("Invalid number at position ");
                push_decimal(&mut out, *pos);
            },
            JsonError::InvalidLiteral(pos) => {
                out.append("Invalid literal at position ");
                push_decimal(&mut out, *pos);
            },
            JsonError::TrailingData(pos) => {
                out.append("Trailing data after JSON value at position ");
                push_decimal(&mut out, *pos);
            },
            JsonError::MaxDepthExceeded => out.append("Maximum nesting depth exceeded"),
            JsonError::InvalidUtf8 => out.append("Invalid UTF-8 in JSON string"),
        }
        out
    }
}

} // verus!
