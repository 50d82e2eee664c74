//! Token kinds produced by the lexer.
//!
//! Predicate expression syntax (`==`, `AND`, `forall`, ...) is not lexed:
//! predicates live inside string literals. The lexer only handles the outer
//! block-item structure.

use vstd::prelude::*;

use crate::span::Span;

verus! {

#[derive(Debug, Clone, PartialEq, Eq)]
pub enum TokenKind {
    LBrace,
    RBrace,
    LBracket,
    RBracket,
    LParen,
    RParen,
    LAngle,
    RAngle,
    Comma,
    Colon,
    Semi,
    Dot,
    Pipe,
    Eq,
    Arrow,
    Identifier(String),
    IntLit(i64),
    /// String literal with escapes resolved; `is_triple` tells `"..."` from
    /// `"""..."""`.
    StringLit { value: String, is_triple: bool },
    /// End of input. Exactly one per token stream, last.
    Eof,
}

#[derive(Debug, Clone, PartialEq, Eq)]
pub struct Token {
    pub kind: TokenKind,
    pub span: Span,
}

impl Token {
    pub fn new(kind: TokenKind, span: Span) -> (t: Self)
        ensures
            t.kind == kind,
            t.span == span,
    {
        Token { kind, span }
    }

    pub fn is_eof(&self) -> (b: bool)
        ensures
            b == (self.kind is Eof),
    {
        match self.kind {
            TokenKind::Eof => true,
            _ => false,
        }
    }
}

/// Display form of a token kind for error messages.
pub open spec fn spec_label(k: TokenKind) -> Seq<char> {
    match k {
        TokenKind::LBrace => "`{`"@,
        TokenKind::RBrace => "`}`"@,
        TokenKind::LBracket => "`[`"@,
        TokenKind::RBracket => "`]`"@,
        TokenKind::LParen => "`(`"@,
        TokenKind::RParen => "`)`"@,
        TokenKind::LAngle => "`<`"@,
        TokenKind::RAngle => "`>`"@,
        TokenKind::Comma => "`,`"@,
        TokenKind::Colon => "`:`"@,
        TokenKind::Semi => "`;`"@,
        TokenKind::Dot => "`.`"@,
        TokenKind::Pipe => "`|`"@,
        TokenKind::Eq => "`=`"@,
        TokenKind::Arrow => "`->`"@,
        TokenKind::Identifier(_) => "identifier"@,
        TokenKind::IntLit(_) => "integer literal"@,
        TokenKind::StringLit { .. } => "string literal"@,
        TokenKind::Eof => "end of input"@,
    }
}

impl TokenKind {
    /// Display form for error messages and debug output.
    pub fn label(&self) -> (s: &'static str)
        ensures
            s@ == spec_label(*self),
    {
        match self {
            TokenKind::LBrace => "`{`",
            TokenKind::RBrace => "`}`",
            TokenKind::LBracket => "`[`",
            TokenKind::RBracket => "`]`",
            TokenKind::LParen => "`(`",
            TokenKind::RParen => "`)`",
            TokenKind::LAngle => "`<`",
            TokenKind::RAngle => "`>`",
            TokenKind::Comma => "`,`",
            TokenKind::Colon => "`:`",
            TokenKind::Semi => "`;`",
            TokenKind::Dot => "`.`",
            TokenKind::Pipe => "`|`",
            TokenKind::Eq => "`=`",
            TokenKind::Arrow => "`->`",
            TokenKind::Identifier(_) => "identifier",
            TokenKind::IntLit(_) => "integer literal",
            TokenKind::StringLit { .. } => "string literal",
            TokenKind::Eof => "end of input",
        }
    }
}

} // verus!
