//! Tokens of the source language and the lexer that reads them from source text.
//!
//! At each position, after blanks (space, tab, CR, LF), the lexer takes the longest token
//! that stands there; a fixed token (keyword, operator, punctuation) wins over a pattern
//! token (number, string, variable, identifier, comment) of the same length. Comments are
//! read and dropped, and an end-of-input token closes the sequence.

use vstd::prelude::*;
use vstd::string::{StringExecFns, StringSliceAdditionalSpecFns};
use crate::bytes::{is_digit, range_eq};
use crate::json::decode::digits_end;
use crate::json::simd::{lemma_skip_ws_bounds, skip_digits_end, skip_whitespace, skip_ws};
use crate::text::{lemma_ascii_splittable, lemma_str_valid, substr};

verus! {

/// The kinds of token the lexer produces.
#[derive(Debug, Clone, Copy, PartialEq, Eq, Structural)]
pub enum TokenKind {
    /// `<?php`
    PhpOpen,
    /// `function`
    Fn,
    /// `fn`
    FnArrow,
    /// `return`
    Return,
    /// `if`
    If,
    /// `else`
    Else,
    /// `while`
    While,
    /// `for`
    For,
    /// `echo`
    Echo,
    /// `true`
    True,
    /// `false`
    False,
    /// `null`
    Null,
    /// `class`
    Class,
    /// `new`
    New,
    /// `public`
    Public,
    /// `private`
    Private,
    /// `protected`
    Protected,
    /// `extends`
    Extends,
    /// `implements`
    Implements,
    /// `interface`
    Interface,
    /// `abstract`
    Abstract,
    /// `static`
    Static,
    /// `final`
    Final,
    /// `const`
    Const,
    /// `$this`
    This,
    /// `self`
    SelfKw,
    /// `parent`
    Parent,
    /// `trait`
    Trait,
    /// `use`
    Use,
    /// `try`
    Try,
    /// `catch`
    Catch,
    /// `finally`
    Finally,
    /// `throw`
    Throw,
    /// `namespace`
    Namespace,
    /// `as`
    As,
    /// `\`
    Backslash,
    /// `int`
    TypeInt,
    /// `float`
    TypeFloat,
    /// `string`
    TypeString,
    /// `bool`
    TypeBool,
    /// `void`
    TypeVoid,
    /// pattern `[0-9]+`
    Integer,
    /// pattern `[0-9]+\.[0-9]+`
    Float,
    /// pattern `"([^"\\]|\\.)*"`
    String,
    /// pattern `'([^'\\]|\\.)*'`
    StringSingle,
    /// pattern `\$[a-zA-Z_][a-zA-Z0-9_]*`
    Variable,
    /// pattern `[a-zA-Z_][a-zA-Z0-9_]*`
    Identifier,
    /// `+`
    Plus,
    /// `-`
    Minus,
    /// `*`
    Star,
    /// `/`
    Slash,
    /// `%`
    Percent,
    /// `=`
    Assign,
    /// `==`
    Eq,
    /// `!=`
    Ne,
    /// `<`
    Lt,
    /// `<=`
    Le,
    /// `>`
    Gt,
    /// `>=`
    Ge,
    /// `&&`
    And,
    /// `||`
    Or,
    /// `|`
    Pipe,
    /// `!`
    Not,
    /// `++`
    PlusPlus,
    /// `--`
    MinusMinus,
    /// `+=`
    PlusAssign,
    /// `-=`
    MinusAssign,
    /// `*=`
    StarAssign,
    /// `/=`
    SlashAssign,
    /// `.`
    Dot,
    /// `..`
    DotDot,
    /// `->`
    Arrow,
    /// `&`
    Ampersand,
    /// `::`
    DoubleColon,
    /// `=>`
    FatArrow,
    /// `#[`
    HashBracket,
    /// `(`
    LParen,
    /// `)`
    RParen,
    /// `{`
    LBrace,
    /// `}`
    RBrace,
    /// `[`
    LBracket,
    /// `]`
    RBracket,
    /// `;`
    Semicolon,
    /// `:`
    Colon,
    /// `,`
    Comma,
    /// pattern `//[^\n]*`, pattern `/\*[^*]*\*+(?:[^/*][^*]*\*+)*/`, pattern `#[^\[\n][^\n]*`, pattern `#\n?`
    Comment,
    /// End of input
    Eof,
}

impl TokenKind {
    /// Whether this is a type keyword (`int`, `float`, `string`, `bool`, `void`).
    pub fn is_type_keyword(self) -> (r: bool)
        ensures
            r == (self is TypeInt || self is TypeFloat || self is TypeString || self is TypeBool
                || self is TypeVoid),
    {
        match self {
            TokenKind::TypeInt | TokenKind::TypeFloat | TokenKind::TypeString | TokenKind::TypeBool
            | TokenKind::TypeVoid => true,
            _ => false,
        }
    }

    /// Whether this is a binary operator: arithmetic, comparison, logical, or `.`.
    pub fn is_binary_operator(self) -> (r: bool)
        ensures
            r == (self is Plus || self is Minus || self is Star || self is Slash || self is Percent
                || self is Eq || self is Ne || self is Lt || self is Le || self is Gt || self is Ge
                || self is And || self is Or || self is Dot),
    {
        match self {
            TokenKind::Plus | TokenKind::Minus | TokenKind::Star | TokenKind::Slash
            | TokenKind::Percent | TokenKind::Eq | TokenKind::Ne | TokenKind::Lt | TokenKind::Le
            | TokenKind::Gt | TokenKind::Ge | TokenKind::And | TokenKind::Or | TokenKind::Dot => true,
            _ => false,
        }
    }
}

/// A token: its kind, its byte span in the source, and its text.
#[derive(Debug)]
pub struct Token {
    pub kind: TokenKind,
    pub span: (usize, usize),
    pub lexeme: String,
}

/// Input the lexer cannot read: no token starts at byte `pos`.
#[derive(Debug, Clone, Copy, PartialEq, Eq, Structural)]
pub struct LexError {
    pub pos: usize,
}

/// Number of fixed tokens.
pub const NLIT: usize = 79;

/// The text of fixed token `k`.
pub open spec fn lit_text(k: int) -> Seq<u8> {
    match k as usize {
        0 => seq![60u8, 63, 112, 104, 112],
        1 => seq![102u8, 117, 110, 99, 116, 105, 111, 110],
        2 => seq![102u8, 110],
        3 => seq![114u8, 101, 116, 117, 114, 110],
        4 => seq![105u8, 102],
        5 => seq![101u8, 108, 115, 101],
        6 => seq![119u8, 104, 105, 108, 101],
        7 => seq![102u8, 111, 114],
        8 => seq![101u8, 99, 104, 111],
        9 => seq![116u8, 114, 117, 101],
        10 => seq![102u8, 97, 108, 115, 101],
        11 => seq![110u8, 117, 108, 108],
        12 => seq![99u8, 108, 97, 115, 115],
        13 => seq![110u8, 101, 119],
        14 => seq![112u8, 117, 98, 108, 105, 99],
        15 => seq![112u8, 114, 105, 118, 97, 116, 101],
        16 => seq![112u8, 114, 111, 116, 101, 99, 116, 101, 100],
        17 => seq![101u8, 120, 116, 101, 110, 100, 115],
        18 => seq![105u8, 109, 112, 108, 101, 109, 101, 110, 116, 115],
        19 => seq![105u8, 110, 116, 101, 114, 102, 97, 99, 101],
        20 => seq![97u8, 98, 115, 116, 114, 97, 99, 116],
        21 => seq![115u8, 116, 97, 116, 105, 99],
        22 => seq![102u8, 105, 110, 97, 108],
        23 => seq![99u8, 111, 110, 115, 116],
        24 => seq![36u8, 116, 104, 105, 115],
        25 => seq![115u8, 101, 108, 102],
        26 => seq![112u8, 97, 114, 101, 110, 116],
        27 => seq![116u8, 114, 97, 105, 116],
        28 => seq![117u8, 115, 101],
        29 => seq![116u8, 114, 121],
        30 => seq![99u8, 97, 116, 99, 104],
        31 => seq![102u8, 105, 110, 97, 108, 108, 121],
        32 => seq![116u8, 104, 114, 111, 119],
        33 => seq![110u8, 97, 109, 101, 115, 112, 97, 99, 101],
        34 => seq![97u8, 115],
        35 => seq![92u8],
        36 => seq![105u8, 110, 116],
        37 => seq![102u8, 108, 111, 97, 116],
        38 => seq![115u8, 116, 114, 105, 110, 103],
        39 => seq![98u8, 111, 111, 108],
        40 => seq![118u8, 111, 105, 100],
        41 => seq![43u8],
        42 => seq![45u8],
        43 => seq![42u8],
        44 => seq![47u8],
        45 => seq![37u8],
        46 => seq![61u8],
        47 => seq![61u8, 61],
        48 => seq![33u8, 61],
        49 => seq![60u8],
        50 => seq![60u8, 61],
        51 => seq![62u8],
        52 => seq![62u8, 61],
        53 => seq![38u8, 38],
        54 => seq![124u8, 124],
        55 => seq![124u8],
        56 => seq![33u8],
        57 => seq![43u8, 43],
        58 => seq![45u8, 45],
        59 => seq![43u8, 61],
        60 => seq![45u8, 61],
        61 => seq![42u8, 61],
        62 => seq![47u8, 61],
        63 => seq![46u8],
        64 => seq![46u8, 46],
        65 => seq![45u8, 62],
        66 => seq![38u8],
        67 => seq![58u8, 58],
        68 => seq![61u8, 62],
        69 => seq![35u8, 91],
        70 => seq![40u8],
        71 => seq![41u8],
        72 => seq![123u8],
        73 => seq![125u8],
        74 => seq![91u8],
        75 => seq![93u8],
        76 => seq![59u8],
        77 => seq![58u8],
        78 => seq![44u8],
        _ => Seq::empty(),
    }
}

/// The kind of fixed token `k`.
pub open spec fn lit_kind(k: int) -> TokenKind {
    match k as usize {
        0 => TokenKind::PhpOpen,
        1 => TokenKind::Fn,
        2 => TokenKind::FnArrow,
        3 => TokenKind::Return,
        4 => TokenKind::If,
        5 => TokenKind::Else,
        6 => TokenKind::While,
        7 => TokenKind::For,
        8 => TokenKind::Echo,
        9 => TokenKind::True,
        10 => TokenKind::False,
        11 => TokenKind::Null,
        12 => TokenKind::Class,
        13 => TokenKind::New,
        14 => TokenKind::Public,
        15 => TokenKind::Private,
        16 => TokenKind::Protected,
        17 => TokenKind::Extends,
        18 => TokenKind::Implements,
        19 => TokenKind::Interface,
        20 => TokenKind::Abstract,
        21 => TokenKind::Static,
        22 => TokenKind::Final,
        23 => TokenKind::Const,
        24 => TokenKind::This,
        25 => TokenKind::SelfKw,
        26 => TokenKind::Parent,
        27 => TokenKind::Trait,
        28 => TokenKind::Use,
        29 => TokenKind::Try,
        30 => TokenKind::Catch,
        31 => TokenKind::Finally,
        32 => TokenKind::Throw,
        33 => TokenKind::Namespace,
        34 => TokenKind::As,
        35 => TokenKind::Backslash,
        36 => TokenKind::TypeInt,
        37 => TokenKind::TypeFloat,
        38 => TokenKind::TypeString,
        39 => TokenKind::TypeBool,
        40 => TokenKind::TypeVoid,
        41 => TokenKind::Plus,
        42 => TokenKind::Minus,
        43 => TokenKind::Star,
        44 => TokenKind::Slash,
        45 => TokenKind::Percent,
        46 => TokenKind::Assign,
        47 => TokenKind::Eq,
        48 => TokenKind::Ne,
        49 => TokenKind::Lt,
        50 => TokenKind::Le,
        51 => TokenKind::Gt,
        52 => TokenKind::Ge,
        53 => TokenKind::And,
        54 => TokenKind::Or,
        55 => TokenKind::Pipe,
        56 => TokenKind::Not,
        57 => TokenKind::PlusPlus,
        58 => TokenKind::MinusMinus,
        59 => TokenKind::PlusAssign,
        60 => TokenKind::MinusAssign,
        61 => TokenKind::StarAssign,
        62 => TokenKind::SlashAssign,
        63 => TokenKind::Dot,
        64 => TokenKind::DotDot,
        65 => TokenKind::Arrow,
        66 => TokenKind::Ampersand,
        67 => TokenKind::DoubleColon,
        68 => TokenKind::FatArrow,
        69 => TokenKind::HashBracket,
        70 => TokenKind::LParen,
        71 => TokenKind::RParen,
        72 => TokenKind::LBrace,
        73 => TokenKind::RBrace,
        74 => TokenKind::LBracket,
        75 => TokenKind::RBracket,
        76 => TokenKind::Semicolon,
        77 => TokenKind::Colon,
        78 => TokenKind::Comma,
        _ => TokenKind::Eof,
    }
}

/// Fixed token `k` stands at `p` in `b`.
pub open spec fn lit_matches(b: Seq<u8>, p: int, k: int) -> bool {
    &&& p + lit_text(k).len() <= b.len()
    &&& b.subrange(p, p + lit_text(k).len()) == lit_text(k)
}

/// The longest of the first `k` fixed tokens that stand at `p`: its length (0 for none)
/// and kind.
pub open spec fn best_literal(b: Seq<u8>, p: int, k: int) -> (int, TokenKind)
    decreases k,
{
    if k <= 0 {
        (0, TokenKind::Eof)
    } else {
        let prev = best_literal(b, p, k - 1);
        if lit_matches(b, p, k - 1) && lit_text(k - 1).len() > prev.0 {
            (lit_text(k - 1).len() as int, lit_kind(k - 1))
        } else {
            prev
        }
    }
}

/// A letter or `_`.
pub open spec fn is_ident_start(c: u8) -> bool {
    (65 <= c <= 90) || (97 <= c <= 122) || c == 95
}

/// A letter, digit or `_`.
pub open spec fn is_ident_char(c: u8) -> bool {
    is_ident_start(c) || is_digit(c)
}

/// After the letters, digits and `_` from `i` on.
pub open spec fn ident_end(b: Seq<u8>, i: int) -> int
    decreases b.len() - i,
{
    if 0 <= i < b.len() && is_ident_char(b[i]) {
        ident_end(b, i + 1)
    } else {
        i
    }
}

/// The closing quote `q` of a quoted string whose contents start at `i`: a backslash takes
/// the next byte along, unless that is a line feed (then there is none).
pub open spec fn quoted_end(b: Seq<u8>, i: int, q: u8) -> Option<int>
    decreases b.len() - i,
{
    if i < 0 || i >= b.len() {
        None
    } else if b[i] == q {
        Some(i)
    } else if b[i] == 92 {
        if i + 1 < b.len() && b[i + 1] != 10 {
            quoted_end(b, i + 2, q)
        } else {
            None
        }
    } else {
        quoted_end(b, i + 1, q)
    }
}

/// The first line feed at or after `i`, or the end.
pub open spec fn line_end(b: Seq<u8>, i: int) -> int
    decreases b.len() - i,
{
    if 0 <= i < b.len() && b[i] != 10 {
        line_end(b, i + 1)
    } else {
        i
    }
}

/// After the first `*/` at or after `i`.
pub open spec fn block_end(b: Seq<u8>, i: int) -> Option<int>
    decreases b.len() - i,
{
    if i < 0 || i + 1 >= b.len() {
        None
    } else if b[i] == 42 && b[i + 1] == 47 {
        Some(i + 2)
    } else {
        block_end(b, i + 1)
    }
}

/// The pattern token at `p` (0 length for none): an integer or a number with a fraction,
/// an identifier, a variable, a double- or single-quoted string, or a comment (`//` to the
/// end of the line, `/* ... */`, `#` to the end of the line unless `[` follows).
pub open spec fn pattern_at(b: Seq<u8>, p: int) -> (int, TokenKind) {
    if p < 0 || p >= b.len() {
        (0, TokenKind::Eof)
    } else {
        let c = b[p];
        if is_digit(c) {
            let d = digits_end(b, p);
            if d < b.len() && b[d] == 46 && digits_end(b, d + 1) > d + 1 {
                (digits_end(b, d + 1) - p, TokenKind::Float)
            } else {
                (d - p, TokenKind::Integer)
            }
        } else if is_ident_start(c) {
            (ident_end(b, p + 1) - p, TokenKind::Identifier)
        } else if c == 36 {
            if p + 1 < b.len() && is_ident_start(b[p + 1]) {
                (ident_end(b, p + 2) - p, TokenKind::Variable)
            } else {
                (0, TokenKind::Eof)
            }
        } else if c == 34 || c == 39 {
            match quoted_end(b, p + 1, c) {
                Some(e) => (e + 1 - p, if c == 34 { TokenKind::String } else { TokenKind::StringSingle }),
                None => (0, TokenKind::Eof),
            }
        } else if c == 47 && p + 1 < b.len() && b[p + 1] == 47 {
            (line_end(b, p) - p, TokenKind::Comment)
        } else if c == 47 && p + 1 < b.len() && b[p + 1] == 42 {
            match block_end(b, p + 2) {
                Some(e) => (e - p, TokenKind::Comment),
                None => (0, TokenKind::Eof),
            }
        } else if c == 35 {
            if p + 1 < b.len() && b[p + 1] == 10 {
                (2, TokenKind::Comment)
            } else if p + 1 < b.len() && b[p + 1] != 91 {
                (line_end(b, p) - p, TokenKind::Comment)
            } else {
                (1, TokenKind::Comment)
            }
        } else {
            (0, TokenKind::Eof)
        }
    }
}

/// The token at `p`: its kind and where it ends. The longest token wins; a fixed token
/// wins over a pattern token of the same length.
pub open spec fn token_at(b: Seq<u8>, p: int) -> Option<(TokenKind, int)> {
    let l = best_literal(b, p, NLIT as int);
    let x = pattern_at(b, p);
    if l.0 > 0 && l.0 >= x.0 {
        Some((l.1, p + l.0))
    } else if x.0 > 0 {
        Some((x.1, p + x.0))
    } else {
        None
    }
}

/// The tokens from `p` on, as kind, start and end; comments dropped.
pub open spec fn lex_from(b: Seq<u8>, p: int) -> Result<Seq<(TokenKind, int, int)>, LexError>
    decreases b.len() - p,
{
    if p < 0 || p > b.len() {
        Ok(Seq::empty())
    } else {
        let q = skip_ws(b, p);
        if q >= b.len() || q < p {
            Ok(Seq::empty())
        } else {
            match token_at(b, q) {
                None => Err(LexError { pos: q as usize }),
                Some((k, e)) => if e <= q || e > b.len() {
                    Err(LexError { pos: q as usize })
                } else {
                    match lex_from(b, e) {
                        Ok(rest) => if k == TokenKind::Comment {
                            Ok(rest)
                        } else {
                            Ok(seq![(k, q, e)] + rest)
                        },
                        Err(x) => Err(x),
                    }
                },
            }
        }
    }
}

/// The tokens of a source text (comments dropped), as kind, start and end.
pub open spec fn spec_tokens(b: Seq<u8>) -> Result<Seq<(TokenKind, int, int)>, LexError> {
    lex_from(b, 0)
}

/// The text of a fixed token kind, as the grammar writes it (`None` for the kinds read by
/// a pattern, and for the end of input).
pub open spec fn fixed_text(k: TokenKind) -> Option<Seq<u8>> {
    match k {
        TokenKind::PhpOpen => Some(seq![60u8, 63, 112, 104, 112]),
        TokenKind::Fn => Some(seq![102u8, 117, 110, 99, 116, 105, 111, 110]),
        TokenKind::FnArrow => Some(seq![102u8, 110]),
        TokenKind::Return => Some(seq![114u8, 101, 116, 117, 114, 110]),
        TokenKind::If => Some(seq![105u8, 102]),
        TokenKind::Else => Some(seq![101u8, 108, 115, 101]),
        TokenKind::While => Some(seq![119u8, 104, 105, 108, 101]),
        TokenKind::For => Some(seq![102u8, 111, 114]),
        TokenKind::Echo => Some(seq![101u8, 99, 104, 111]),
        TokenKind::True => Some(seq![116u8, 114, 117, 101]),
        TokenKind::False => Some(seq![102u8, 97, 108, 115, 101]),
        TokenKind::Null => Some(seq![110u8, 117, 108, 108]),
        TokenKind::Class => Some(seq![99u8, 108, 97, 115, 115]),
        TokenKind::New => Some(seq![110u8, 101, 119]),
        TokenKind::Public => Some(seq![112u8, 117, 98, 108, 105, 99]),
        TokenKind::Private => Some(seq![112u8, 114, 105, 118, 97, 116, 101]),
        TokenKind::Protected => Some(seq![112u8, 114, 111, 116, 101, 99, 116, 101, 100]),
        TokenKind::Extends => Some(seq![101u8, 120, 116, 101, 110, 100, 115]),
        TokenKind::Implements => Some(seq![105u8, 109, 112, 108, 101, 109, 101, 110, 116, 115]),
        TokenKind::Interface => Some(seq![105u8, 110, 116, 101, 114, 102, 97, 99, 101]),
        TokenKind::Abstract => Some(seq![97u8, 98, 115, 116, 114, 97, 99, 116]),
        TokenKind::Static => Some(seq![115u8, 116, 97, 116, 105, 99]),
        TokenKind::Final => Some(seq![102u8, 105, 110, 97, 108]),
        TokenKind::Const => Some(seq![99u8, 111, 110, 115, 116]),
        TokenKind::This => Some(seq![36u8, 116, 104, 105, 115]),
        TokenKind::SelfKw => Some(seq![115u8, 101, 108, 102]),
        TokenKind::Parent => Some(seq![112u8, 97, 114, 101, 110, 116]),
        TokenKind::Trait => Some(seq![116u8, 114, 97, 105, 116]),
        TokenKind::Use => Some(seq![117u8, 115, 101]),
        TokenKind::Try => Some(seq![116u8, 114, 121]),
        TokenKind::Catch => Some(seq![99u8, 97, 116, 99, 104]),
        TokenKind::Finally => Some(seq![102u8, 105, 110, 97, 108, 108, 121]),
        TokenKind::Throw => Some(seq![116u8, 104, 114, 111, 119]),
        TokenKind::Namespace => Some(seq![110u8, 97, 109, 101, 115, 112, 97, 99, 101]),
        TokenKind::As => Some(seq![97u8, 115]),
        TokenKind::Backslash => Some(seq![92u8]),
        TokenKind::TypeInt => Some(seq![105u8, 110, 116]),
        TokenKind::TypeFloat => Some(seq![102u8, 108, 111, 97, 116]),
        TokenKind::TypeString => Some(seq![115u8, 116, 114, 105, 110, 103]),
        TokenKind::TypeBool => Some(seq![98u8, 111, 111, 108]),
        TokenKind::TypeVoid => Some(seq![118u8, 111, 105, 100]),
        TokenKind::Plus => Some(seq![43u8]),
        TokenKind::Minus => Some(seq![45u8]),
        TokenKind::Star => Some(seq![42u8]),
        TokenKind::Slash => Some(seq![47u8]),
        TokenKind::Percent => Some(seq![37u8]),
        TokenKind::Assign => Some(seq![61u8]),
        TokenKind::Eq => Some(seq![61u8, 61]),
        TokenKind::Ne => Some(seq![33u8, 61]),
        TokenKind::Lt => Some(seq![60u8]),
        TokenKind::Le => Some(seq![60u8, 61]),
        TokenKind::Gt => Some(seq![62u8]),
        TokenKind::Ge => Some(seq![62u8, 61]),
        TokenKind::And => Some(seq![38u8, 38]),
        TokenKind::Or => Some(seq![124u8, 124]),
        TokenKind::Pipe => Some(seq![124u8]),
        TokenKind::Not => Some(seq![33u8]),
        TokenKind::PlusPlus => Some(seq![43u8, 43]),
        TokenKind::MinusMinus => Some(seq![45u8, 45]),
        TokenKind::PlusAssign => Some(seq![43u8, 61]),
        TokenKind::MinusAssign => Some(seq![45u8, 61]),
        TokenKind::StarAssign => Some(seq![42u8, 61]),
        TokenKind::SlashAssign => Some(seq![47u8, 61]),
        TokenKind::Dot => Some(seq![46u8]),
        TokenKind::DotDot => Some(seq![46u8, 46]),
        TokenKind::Arrow => Some(seq![45u8, 62]),
        TokenKind::Ampersand => Some(seq![38u8]),
        TokenKind::DoubleColon => Some(seq![58u8, 58]),
        TokenKind::FatArrow => Some(seq![61u8, 62]),
        TokenKind::HashBracket => Some(seq![35u8, 91]),
        TokenKind::LParen => Some(seq![40u8]),
        TokenKind::RParen => Some(seq![41u8]),
        TokenKind::LBrace => Some(seq![123u8]),
        TokenKind::RBrace => Some(seq![125u8]),
        TokenKind::LBracket => Some(seq![91u8]),
        TokenKind::RBracket => Some(seq![93u8]),
        TokenKind::Semicolon => Some(seq![59u8]),
        TokenKind::Colon => Some(seq![58u8]),
        TokenKind::Comma => Some(seq![44u8]),
        _ => None,
    }
}

/// Each entry of the fixed-token table pairs a text with the kind the grammar gives that
/// text: the text of entry `j`'s kind is entry `j`'s text.
pub proof fn law_fixed_tokens(j: int)
    requires
        0 <= j < NLIT,
    ensures
        fixed_text(lit_kind(j)) == Some(lit_text(j)),
{
}

proof fn lemma_best_literal(b: Seq<u8>, p: int, k: int)
    ensures
        best_literal(b, p, k).0 > 0 ==> exists|j: int|
            0 <= j < k && lit_matches(b, p, j) && best_literal(b, p, k) == (lit_text(j).len() as int, lit_kind(j)),
    decreases k,
{
    if k > 0 {
        lemma_best_literal(b, p, k - 1);
    }
}

/// The token `r` read at `p`, when of a fixed kind, is exactly that kind's text in `b`.
pub open spec fn spells_fixed_text(b: Seq<u8>, p: int, r: Option<(TokenKind, int)>) -> bool {
    match r {
        Some((k, e)) => match fixed_text(k) {
            Some(t) => e == p + t.len() && b.subrange(p, e) == t,
            None => true,
        },
        None => true,
    }
}

/// A token of a fixed kind is exactly that kind's text in the source: where the lexer
/// reads `Lt` there stands `<`, and so on for every keyword, operator and punctuation.
pub proof fn law_token_text(b: Seq<u8>, p: int)
    requires
        0 <= p,
    ensures
        spells_fixed_text(b, p, token_at(b, p)),
{
    lemma_best_literal(b, p, NLIT as int);
    let l = best_literal(b, p, NLIT as int);
    let x = pattern_at(b, p);
    if l.0 > 0 && l.0 >= x.0 {
        let j = choose|j: int|
            0 <= j < NLIT && lit_matches(b, p, j) && best_literal(b, p, NLIT as int) == (lit_text(j).len() as int, lit_kind(j));
        law_fixed_tokens(j);
        assert(token_at(b, p) == Some((lit_kind(j), p + lit_text(j).len())));
    } else if x.0 > 0 {
        assert(x.1 == TokenKind::Float || x.1 == TokenKind::Integer || x.1 == TokenKind::Identifier
            || x.1 == TokenKind::Variable || x.1 == TokenKind::String || x.1 == TokenKind::StringSingle
            || x.1 == TokenKind::Comment || x.1 == TokenKind::Eof);
        assert(token_at(b, p) == Some((x.1, p + x.0)));
    }
}

proof fn lemma_ident_end(b: Seq<u8>, i: int)
    requires
        0 <= i <= b.len(),
    ensures
        i <= ident_end(b, i) <= b.len(),
        forall|k: int| i <= k < ident_end(b, i) ==> is_ident_char(#[trigger] b[k]),
        ident_end(b, i) < b.len() ==> !is_ident_char(b[ident_end(b, i)]),
    decreases b.len() - i,
{
    if i < b.len() && is_ident_char(b[i]) {
        lemma_ident_end(b, i + 1);
    }
}

/// No fixed token is read as an identifier, a variable or a number: those kinds come
/// from their patterns alone.
proof fn lemma_pattern_kind(b: Seq<u8>, p: int, k: TokenKind, e: int)
    requires
        0 <= p,
        token_at(b, p) == Some((k, e)),
        fixed_text(k) is None,
    ensures
        pattern_at(b, p) == (e - p, k),
{
    lemma_best_literal(b, p, NLIT as int);
    let l = best_literal(b, p, NLIT as int);
    if l.0 > 0 && l.0 >= pattern_at(b, p).0 {
        let j = choose|j: int|
            0 <= j < NLIT && lit_matches(b, p, j) && best_literal(b, p, NLIT as int) == (lit_text(j).len() as int, lit_kind(j));
        law_fixed_tokens(j);
    }
}

/// Identifiers, variables and integers are read whole: an identifier is a letter or `_`
/// followed by letters, digits and `_`, and no such character follows it; a variable is
/// `$` and then an identifier, read whole the same way; an integer is a run of digits that
/// no further digit follows.
pub proof fn law_word_tokens(b: Seq<u8>, p: int, e: int)
    requires
        0 <= p,
    ensures
        token_at(b, p) == Some((TokenKind::Identifier, e)) ==> p < e <= b.len() && is_ident_start(b[p])
            && (forall|i: int| p <= i < e ==> is_ident_char(#[trigger] b[i]))
            && (e == b.len() || !is_ident_char(b[e])),
        token_at(b, p) == Some((TokenKind::Variable, e)) ==> p + 1 < e <= b.len() && b[p] == 36
            && is_ident_start(b[p + 1]) && (forall|i: int| p + 1 <= i < e ==> is_ident_char(#[trigger] b[i]))
            && (e == b.len() || !is_ident_char(b[e])),
        token_at(b, p) == Some((TokenKind::Integer, e)) ==> p < e <= b.len()
            && (forall|i: int| p <= i < e ==> is_digit(#[trigger] b[i]))
            && (e == b.len() || !is_digit(b[e])),
{
    if token_at(b, p) == Some((TokenKind::Identifier, e)) {
        lemma_pattern_kind(b, p, TokenKind::Identifier, e);
        lemma_ident_end(b, p + 1);
    }
    if token_at(b, p) == Some((TokenKind::Variable, e)) {
        lemma_pattern_kind(b, p, TokenKind::Variable, e);
        lemma_ident_end(b, p + 2);
    }
    if token_at(b, p) == Some((TokenKind::Integer, e)) {
        lemma_pattern_kind(b, p, TokenKind::Integer, e);
        crate::json::decode::lemma_digits_end(b, p);
    }
}

/// Every token of a fixed kind that the lexer reads from `b` from `p` on is exactly that
/// kind's text in `b`.
pub proof fn law_tokens_text(b: Seq<u8>, p: int)
    ensures
        lex_from(b, p) matches Ok(ts) ==> forall|i: int|
            0 <= i < ts.len() && (#[trigger] fixed_text(ts[i].0)) is Some ==> 0 <= ts[i].1 <= ts[i].2 <= b.len()
                && b.subrange(ts[i].1, ts[i].2) == fixed_text(ts[i].0)->0,
    decreases b.len() - p,
{
    if 0 <= p <= b.len() {
        let q = skip_ws(b, p);
        if q < b.len() && q >= p {
            if let Some((k, e)) = token_at(b, q) {
                if q < e <= b.len() {
                    law_tokens_text(b, e);
                    law_token_text(b, q);
                    assert(spells_fixed_text(b, q, Some((k, e))));
                    if let Ok(rest) = lex_from(b, e) {
                        if k != TokenKind::Comment {
                            let ts = seq![(k, q, e)] + rest;
                            assert forall|i: int|
                                0 <= i < ts.len() && (#[trigger] fixed_text(ts[i].0)) is Some implies 0 <= ts[i].1 <= ts[i].2 <= b.len()
                                    && b.subrange(ts[i].1, ts[i].2) == fixed_text(ts[i].0)->0 by {
                                if i > 0 {
                                    assert(ts[i] == rest[i - 1]);
                                }
                            }
                        }
                    }
                }
            }
        }
    }
}

/// A token as kind, start and end.
pub open spec fn token_view(t: Token) -> (TokenKind, int, int) {
    (t.kind, t.span.0 as int, t.span.1 as int)
}

/// `done` followed by what `r` holds.
pub open spec fn after(done: Seq<(TokenKind, int, int)>, r: Result<Seq<(TokenKind, int, int)>, LexError>) -> Result<
    Seq<(TokenKind, int, int)>,
    LexError,
> {
    match r {
        Ok(s) => Ok(done + s),
        Err(e) => Err(e),
    }
}

/// Fixed token `k`: its text and kind.
fn lit_entry(k: usize) -> (r: (Vec<u8>, TokenKind))
    requires
        k < NLIT,
    ensures
        r.0@ == lit_text(k as int),
        r.1 == lit_kind(k as int),
        r.0@.len() > 0,
        r.0@[0] < 128,
        r.0@.last() < 128,
{
    let r = match k {
        0 => (vec![60u8, 63, 112, 104, 112], TokenKind::PhpOpen),
        1 => (vec![102u8, 117, 110, 99, 116, 105, 111, 110], TokenKind::Fn),
        2 => (vec![102u8, 110], TokenKind::FnArrow),
        3 => (vec![114u8, 101, 116, 117, 114, 110], TokenKind::Return),
        4 => (vec![105u8, 102], TokenKind::If),
        5 => (vec![101u8, 108, 115, 101], TokenKind::Else),
        6 => (vec![119u8, 104, 105, 108, 101], TokenKind::While),
        7 => (vec![102u8, 111, 114], TokenKind::For),
        8 => (vec![101u8, 99, 104, 111], TokenKind::Echo),
        9 => (vec![116u8, 114, 117, 101], TokenKind::True),
        10 => (vec![102u8, 97, 108, 115, 101], TokenKind::False),
        11 => (vec![110u8, 117, 108, 108], TokenKind::Null),
        12 => (vec![99u8, 108, 97, 115, 115], TokenKind::Class),
        13 => (vec![110u8, 101, 119], TokenKind::New),
        14 => (vec![112u8, 117, 98, 108, 105, 99], TokenKind::Public),
        15 => (vec![112u8, 114, 105, 118, 97, 116, 101], TokenKind::Private),
        16 => (vec![112u8, 114, 111, 116, 101, 99, 116, 101, 100], TokenKind::Protected),
        17 => (vec![101u8, 120, 116, 101, 110, 100, 115], TokenKind::Extends),
        18 => (vec![105u8, 109, 112, 108, 101, 109, 101, 110, 116, 115], TokenKind::Implements),
        19 => (vec![105u8, 110, 116, 101, 114, 102, 97, 99, 101], TokenKind::Interface),
        20 => (vec![97u8, 98, 115, 116, 114, 97, 99, 116], TokenKind::Abstract),
        21 => (vec![115u8, 116, 97, 116, 105, 99], TokenKind::Static),
        22 => (vec![102u8, 105, 110, 97, 108], TokenKind::Final),
        23 => (vec![99u8, 111, 110, 115, 116], TokenKind::Const),
        24 => (vec![36u8, 116, 104, 105, 115], TokenKind::This),
        25 => (vec![115u8, 101, 108, 102], TokenKind::SelfKw),
        26 => (vec![112u8, 97, 114, 101, 110, 116], TokenKind::Parent),
        27 => (vec![116u8, 114, 97, 105, 116], TokenKind::Trait),
        28 => (vec![117u8, 115, 101], TokenKind::Use),
        29 => (vec![116u8, 114, 121], TokenKind::Try),
        30 => (vec![99u8, 97, 116, 99, 104], TokenKind::Catch),
        31 => (vec![102u8, 105, 110, 97, 108, 108, 121], TokenKind::Finally),
        32 => (vec![116u8, 104, 114, 111, 119], TokenKind::Throw),
        33 => (vec![110u8, 97, 109, 101, 115, 112, 97, 99, 101], TokenKind::Namespace),
        34 => (vec![97u8, 115], TokenKind::As),
        35 => (vec![92u8], TokenKind::Backslash),
        36 => (vec![105u8, 110, 116], TokenKind::TypeInt),
        37 => (vec![102u8, 108, 111, 97, 116], TokenKind::TypeFloat),
        38 => (vec![115u8, 116, 114, 105, 110, 103], TokenKind::TypeString),
        39 => (vec![98u8, 111, 111, 108], TokenKind::TypeBool),
        40 => (vec![118u8, 111, 105, 100], TokenKind::TypeVoid),
        41 => (vec![43u8], TokenKind::Plus),
        42 => (vec![45u8], TokenKind::Minus),
        43 => (vec![42u8], TokenKind::Star),
        44 => (vec![47u8], TokenKind::Slash),
        45 => (vec![37u8], TokenKind::Percent),
        46 => (vec![61u8], TokenKind::Assign),
        47 => (vec![61u8, 61], TokenKind::Eq),
        48 => (vec![33u8, 61], TokenKind::Ne),
        49 => (vec![60u8], TokenKind::Lt),
        50 => (vec![60u8, 61], TokenKind::Le),
        51 => (vec![62u8], TokenKind::Gt),
        52 => (vec![62u8, 61], TokenKind::Ge),
        53 => (vec![38u8, 38], TokenKind::And),
        54 => (vec![124u8, 124], TokenKind::Or),
        55 => (vec![124u8], TokenKind::Pipe),
        56 => (vec![33u8], TokenKind::Not),
        57 => (vec![43u8, 43], TokenKind::PlusPlus),
        58 => (vec![45u8, 45], TokenKind::MinusMinus),
        59 => (vec![43u8, 61], TokenKind::PlusAssign),
        60 => (vec![45u8, 61], TokenKind::MinusAssign),
        61 => (vec![42u8, 61], TokenKind::StarAssign),
        62 => (vec![47u8, 61], TokenKind::SlashAssign),
        63 => (vec![46u8], TokenKind::Dot),
        64 => (vec![46u8, 46], TokenKind::DotDot),
        65 => (vec![45u8, 62], TokenKind::Arrow),
        66 => (vec![38u8], TokenKind::Ampersand),
        67 => (vec![58u8, 58], TokenKind::DoubleColon),
        68 => (vec![61u8, 62], TokenKind::FatArrow),
        69 => (vec![35u8, 91], TokenKind::HashBracket),
        70 => (vec![40u8], TokenKind::LParen),
        71 => (vec![41u8], TokenKind::RParen),
        72 => (vec![123u8], TokenKind::LBrace),
        73 => (vec![125u8], TokenKind::RBrace),
        74 => (vec![91u8], TokenKind::LBracket),
        75 => (vec![93u8], TokenKind::RBracket),
        76 => (vec![59u8], TokenKind::Semicolon),
        77 => (vec![58u8], TokenKind::Colon),
        78 => (vec![44u8], TokenKind::Comma),
        _ => (vec![0u8], TokenKind::Eof),
    };
    proof {
        assert(r.0@ =~= lit_text(k as int));
    }
    r
}

/// The longest fixed token at `p`.
fn literal_at(b: &[u8], p: usize) -> (r: (usize, TokenKind))
    requires
        p <= b@.len(),
    ensures
        (r.0 as int, r.1) == best_literal(b@, p as int, NLIT as int),
        r.0 > 0 ==> p + r.0 <= b@.len() && b@[p as int] < 128 && b@[p + r.0 - 1] < 128,
{
    let n = b.len();
    let mut best: usize = 0;
    let mut kind = TokenKind::Eof;
    let mut k: usize = 0;
    while k < NLIT
        invariant
            n == b@.len(),
            p <= n,
            0 <= k <= NLIT,
            (best as int, kind) == best_literal(b@, p as int, k as int),
            best > 0 ==> p + best <= n && b@[p as int] < 128 && b@[p + best - 1] < 128,
        decreases NLIT - k,
    {
        let (text, tk) = lit_entry(k);
        let len = text.len();
        if len <= n - p && len > best && range_eq(b, p, p + len, text.as_slice()) {
            proof {
                assert(b@.subrange(p as int, p + len)[0] == text@[0]);
                assert(b@.subrange(p as int, p + len)[len - 1] == text@[len - 1]);
            }
            best = len;
            kind = tk;
        }
        k = k + 1;
    }
    (best, kind)
}

fn ident_end_exec(b: &[u8], i: usize) -> (r: usize)
    requires
        i <= b@.len(),
    ensures
        r == ident_end(b@, i as int),
        i <= r <= b@.len(),
        r > i ==> b@[r - 1] < 128,
{
    let mut j = i;
    while j < b.len() && ((b[j] >= 65 && b[j] <= 90) || (b[j] >= 97 && b[j] <= 122) || b[j] == 95 || (b[j] >= 48 && b[j] <= 57))
        invariant
            i <= j <= b@.len(),
            ident_end(b@, j as int) == ident_end(b@, i as int),
            j > i ==> b@[j - 1] < 128,
        decreases b@.len() - j,
    {
        j = j + 1;
    }
    j
}

fn quoted_end_exec(b: &[u8], i: usize, q: u8) -> (r: Option<usize>)
    requires
        i <= b@.len(),
        b@.len() < usize::MAX,
    ensures
        match r {
            Some(e) => quoted_end(b@, i as int, q) == Some(e as int) && i <= e < b@.len() && b@[e as int] == q,
            None => quoted_end(b@, i as int, q) is None,
        },
{
    let n = b.len();
    let mut j = i;
    while j < n
        invariant
            n == b@.len(),
            n < usize::MAX,
            i <= j <= n + 1,
            quoted_end(b@, j as int, q) == quoted_end(b@, i as int, q),
        decreases n + 1 - j,
    {
        if b[j] == q {
            return Some(j);
        } else if b[j] == 92 {
            if j + 1 < n && b[j + 1] != 10 {
                j = j + 2;
            } else {
                return None;
            }
        } else {
            j = j + 1;
        }
    }
    None
}

fn line_end_exec(b: &[u8], i: usize) -> (r: usize)
    requires
        i <= b@.len(),
    ensures
        r == line_end(b@, i as int),
        i <= r <= b@.len(),
{
    let mut j = i;
    while j < b.len() && b[j] != 10
        invariant
            i <= j <= b@.len(),
            line_end(b@, j as int) == line_end(b@, i as int),
        decreases b@.len() - j,
    {
        j = j + 1;
    }
    j
}

fn block_end_exec(b: &[u8], i: usize) -> (r: Option<usize>)
    requires
        i <= b@.len(),
    ensures
        match r {
            Some(e) => block_end(b@, i as int) == Some(e as int) && i + 2 <= e <= b@.len(),
            None => block_end(b@, i as int) is None,
        },
{
    let n = b.len();
    let mut j = i;
    while n - j >= 2
        invariant
            n == b@.len(),
            i <= j <= n,
            block_end(b@, j as int) == block_end(b@, i as int),
        decreases n - j,
    {
        if b[j] == 42 && b[j + 1] == 47 {
            return Some(j + 2);
        }
        j = j + 1;
    }
    None
}

/// The pattern token at `p`.
fn pattern_at_exec(b: &[u8], p: usize) -> (r: (usize, TokenKind))
    requires
        p < b@.len(),
        b@.len() < usize::MAX,
    ensures
        (r.0 as int, r.1) == pattern_at(b@, p as int),
        p + r.0 <= b@.len(),
        r.0 > 0 ==> b@[p as int] < 128,
        r.0 > 0 && r.1 != TokenKind::Comment ==> b@[p + r.0 - 1] < 128,
{
    let n = b.len();
    let c = b[p];
    if c >= 48 && c <= 57 {
        let d = skip_digits_end(b, p);
        proof {
            crate::json::decode::lemma_digits_end(b@, p as int);
        }
        if d < n && b[d] == 46 {
            let d2 = skip_digits_end(b, d + 1);
            proof {
                crate::json::decode::lemma_digits_end(b@, d + 1);
            }
            if d2 > d + 1 {
                return (d2 - p, TokenKind::Float);
            }
        }
        (d - p, TokenKind::Integer)
    } else if (c >= 65 && c <= 90) || (c >= 97 && c <= 122) || c == 95 {
        let e = ident_end_exec(b, p + 1);
        (e - p, TokenKind::Identifier)
    } else if c == 36 {
        if p + 1 < n && ((b[p + 1] >= 65 && b[p + 1] <= 90) || (b[p + 1] >= 97 && b[p + 1] <= 122) || b[p + 1] == 95) {
            let e = ident_end_exec(b, p + 2);
            (e - p, TokenKind::Variable)
        } else {
            (0, TokenKind::Eof)
        }
    } else if c == 34 || c == 39 {
        match quoted_end_exec(b, p + 1, c) {
            Some(e) => (e + 1 - p, if c == 34 { TokenKind::String } else { TokenKind::StringSingle }),
            None => (0, TokenKind::Eof),
        }
    } else if c == 47 && p + 1 < n && b[p + 1] == 47 {
        let e = line_end_exec(b, p);
        (e - p, TokenKind::Comment)
    } else if c == 47 && p + 1 < n && b[p + 1] == 42 {
        match block_end_exec(b, p + 2) {
            Some(e) => (e - p, TokenKind::Comment),
            None => (0, TokenKind::Eof),
        }
    } else if c == 35 {
        if p + 1 < n && b[p + 1] == 10 {
            (2, TokenKind::Comment)
        } else if p + 1 < n && b[p + 1] != 91 {
            let e = line_end_exec(b, p);
            (e - p, TokenKind::Comment)
        } else {
            (1, TokenKind::Comment)
        }
    } else {
        (0, TokenKind::Eof)
    }
}

/// The tokens of `source` (comments dropped), each with its byte span and text, followed
/// by an end-of-input token at the end; or the first position where no token starts.
pub fn tokenize(source: &str) -> (r: Result<Vec<Token>, LexError>)
    requires
        source.spec_bytes().len() < usize::MAX,
    ensures
        match spec_tokens(source.spec_bytes()) {
            Ok(ts) => r matches Ok(v) && {
                &&& v@.len() == ts.len() + 1
                &&& forall|i: int| 0 <= i < ts.len() ==> token_view(#[trigger] v@[i]) == ts[i]
                    && vstd::utf8::encode_utf8(v@[i].lexeme@) == source.spec_bytes().subrange(ts[i].1, ts[i].2)
                &&& v@.last().kind == TokenKind::Eof
                &&& v@.last().span == (source.spec_bytes().len() as usize, source.spec_bytes().len() as usize)
                &&& v@.last().lexeme@.len() == 0
            },
            Err(e) => r == Err::<Vec<Token>, LexError>(e),
        },
{
    let b = source.as_bytes();
    let n = b.len();
    let ghost bs = b@;
    proof {
        lemma_str_valid(source);
    }
    let mut out: Vec<Token> = Vec::new();
    let ghost mut done: Seq<(TokenKind, int, int)> = Seq::empty();
    let mut pos: usize = 0;
    while pos < n
        invariant
            bs == b@,
            bs == source.spec_bytes(),
            n == bs.len(),
            n < usize::MAX,
            vstd::utf8::valid_utf8(bs),
            pos <= n,
            lex_from(bs, 0) == after(done, lex_from(bs, pos as int)),
            out@.len() == done.len(),
            forall|i: int| 0 <= i < done.len() ==> token_view(#[trigger] out@[i]) == done[i]
                && vstd::utf8::encode_utf8(out@[i].lexeme@) == bs.subrange(done[i].1, done[i].2),
        decreases n - pos,
    {
        let q = skip_whitespace(b, pos);
        proof {
            lemma_skip_ws_bounds(bs, pos as int);
        }
        if q >= n {
            proof {
                assert(lex_from(bs, pos as int) == Ok::<Seq<(TokenKind, int, int)>, LexError>(Seq::empty()));
            }
            pos = n;
        } else {
            let (l, lk) = literal_at(b, q);
            let (x, xk) = pattern_at_exec(b, q);
            let (kind, e) = if l > 0 && l >= x {
                (lk, q + l)
            } else if x > 0 {
                (xk, q + x)
            } else {
                proof {
                    assert(token_at(bs, q as int) is None);
                }
                return Err(LexError { pos: q });
            };
            proof {
                assert(token_at(bs, q as int) == Some((kind, e as int)));
            }
            if kind != TokenKind::Comment {
                proof {
                    lemma_ascii_splittable(bs, q as int);
                    lemma_ascii_splittable(bs, e - 1);
                }
                let text = substr(source, q, e);
                let lexeme = String::from_str(text);
                let ghost out0 = out@;
                out.push(Token { kind, span: (q, e), lexeme });
                proof {
                    let d0 = done;
                    done = done.push((kind, q as int, e as int));
                    assert forall|i: int| 0 <= i < done.len() implies token_view(#[trigger] out@[i]) == done[i]
                        && vstd::utf8::encode_utf8(out@[i].lexeme@) == bs.subrange(done[i].1, done[i].2) by {
                        if i < d0.len() {
                            assert(out@[i] == out0[i]);
                        }
                    }
                    assert(after(d0, lex_from(bs, pos as int)) == after(done, lex_from(bs, e as int))) by {
                        match lex_from(bs, e as int) {
                            Ok(rest) => {
                                assert(d0 + (seq![(kind, q as int, e as int)] + rest) =~= done + rest);
                            },
                            Err(_) => {},
                        }
                    }
                }
            }
            pos = e;
        }
    }
    proof {
        lemma_skip_ws_bounds(bs, pos as int);
        assert(lex_from(bs, pos as int) == Ok::<Seq<(TokenKind, int, int)>, LexError>(Seq::empty()));
        assert(done + Seq::<(TokenKind, int, int)>::empty() =~= done);
    }
    let eof = Token { kind: TokenKind::Eof, span: (n, n), lexeme: String::new() };
    out.push(eof);
    Ok(out)
}

} // verus!
