//! Hand-rolled single-pass lexer for `.memspec`.
//!
//! Produces a [`TokenStream`] (tokens + diagnostics) over a UTF-8 source.
//! The lexer is tolerant of in-progress edits: it never aborts on a bad
//! character; it emits a diagnostic and moves on.

use vstd::prelude::*;
use vstd::string::StringSliceAdditionalSpecFns;

use crate::diagnostic::codes;
use crate::diagnostic::{Diagnostic, Severity};
use crate::span::Span;
use crate::text::{bytes_as_chars, cat3, char_from_scalar, push_char};
use crate::token::{Token, TokenKind};

verus! {

pub struct TokenStream {
    pub tokens: Vec<Token>,
    pub diagnostics: Vec<Diagnostic>,
}

// ---------------------------------------------------------------------------
// Byte classes
// ---------------------------------------------------------------------------

pub open spec fn spec_is_whitespace(b: u8) -> bool {
    b == 32u8 || b == 9u8 || b == 10u8 || b == 13u8
}

pub open spec fn spec_is_ident_start(b: u8) -> bool {
    (97u8 <= b && b <= 122u8) || (65u8 <= b && b <= 90u8) || b == 95u8
}

pub open spec fn spec_is_ident_cont(b: u8) -> bool {
    spec_is_ident_start(b) || spec_is_digit(b)
}

pub open spec fn spec_is_digit(b: u8) -> bool {
    48u8 <= b && b <= 57u8
}

/// Bytes advanced over for a character whose first byte is `lead`.
pub open spec fn spec_codepoint_len(lead: u8) -> usize {
    if lead <= 0x7fu8 {
        1
    } else if 0xc0u8 <= lead && lead <= 0xdfu8 {
        2
    } else if 0xe0u8 <= lead && lead <= 0xefu8 {
        3
    } else if 0xf0u8 <= lead && lead <= 0xf7u8 {
        4
    } else {
        1
    }
}

fn is_whitespace(b: u8) -> (r: bool)
    ensures
        r == spec_is_whitespace(b),
{
    b == 32u8 || b == 9u8 || b == 10u8 || b == 13u8
}

fn is_ident_start(b: u8) -> (r: bool)
    ensures
        r == spec_is_ident_start(b),
{
    (97u8 <= b && b <= 122u8) || (65u8 <= b && b <= 90u8) || b == 95u8
}

fn is_ident_cont(b: u8) -> (r: bool)
    ensures
        r == spec_is_ident_cont(b),
{
    is_ident_start(b) || (48u8 <= b && b <= 57u8)
}

/// UTF-8 codepoint length from the leading byte; 1 for a byte that cannot
/// lead a codepoint, so scanning always makes progress.
fn utf8_codepoint_len(lead: u8) -> (n: usize)
    ensures
        n == spec_codepoint_len(lead),
        1 <= n <= 4,
{
    if lead <= 0x7fu8 {
        1
    } else if 0xc0u8 <= lead && lead <= 0xdfu8 {
        2
    } else if 0xe0u8 <= lead && lead <= 0xefu8 {
        3
    } else if 0xf0u8 <= lead && lead <= 0xf7u8 {
        4
    } else {
        1
    }
}

/// The single-byte punctuation token for `b`, if any.
pub open spec fn spec_punct(b: u8) -> Option<TokenKind> {
    if b == 123u8 { Some(TokenKind::LBrace) }
    else if b == 125u8 { Some(TokenKind::RBrace) }
    else if b == 91u8 { Some(TokenKind::LBracket) }
    else if b == 93u8 { Some(TokenKind::RBracket) }
    else if b == 40u8 { Some(TokenKind::LParen) }
    else if b == 41u8 { Some(TokenKind::RParen) }
    else if b == 60u8 { Some(TokenKind::LAngle) }
    else if b == 62u8 { Some(TokenKind::RAngle) }
    else if b == 44u8 { Some(TokenKind::Comma) }
    else if b == 58u8 { Some(TokenKind::Colon) }
    else if b == 59u8 { Some(TokenKind::Semi) }
    else if b == 46u8 { Some(TokenKind::Dot) }
    else if b == 124u8 { Some(TokenKind::Pipe) }
    else if b == 61u8 { Some(TokenKind::Eq) }
    else { None }
}

fn punct(b: u8) -> (r: Option<TokenKind>)
    ensures
        r == spec_punct(b),
{
    if b == 123u8 { Some(TokenKind::LBrace) }
    else if b == 125u8 { Some(TokenKind::RBrace) }
    else if b == 91u8 { Some(TokenKind::LBracket) }
    else if b == 93u8 { Some(TokenKind::RBracket) }
    else if b == 40u8 { Some(TokenKind::LParen) }
    else if b == 41u8 { Some(TokenKind::RParen) }
    else if b == 60u8 { Some(TokenKind::LAngle) }
    else if b == 62u8 { Some(TokenKind::RAngle) }
    else if b == 44u8 { Some(TokenKind::Comma) }
    else if b == 58u8 { Some(TokenKind::Colon) }
    else if b == 59u8 { Some(TokenKind::Semi) }
    else if b == 46u8 { Some(TokenKind::Dot) }
    else if b == 124u8 { Some(TokenKind::Pipe) }
    else if b == 61u8 { Some(TokenKind::Eq) }
    else { None }
}

// ---------------------------------------------------------------------------
// What a token says about the bytes it covers
// ---------------------------------------------------------------------------

/// Decimal value of a run of ASCII digits.
pub open spec fn digits_value(ds: Seq<u8>) -> int
    decreases ds.len(),
{
    if ds.len() == 0 {
        0
    } else {
        digits_value(ds.drop_last()) * 10 + (ds.last() - 48u8)
    }
}

/// `bs[start..end]` is a maximal run of bytes satisfying the identifier
/// continuation class.
pub open spec fn ident_run(bs: Seq<u8>, start: int, end: int) -> bool {
    &&& 0 <= start < end <= bs.len()
    &&& spec_is_ident_start(bs[start])
    &&& forall|i: int| start <= i < end ==> spec_is_ident_cont(#[trigger] bs[i])
    &&& (end == bs.len() || !spec_is_ident_cont(bs[end]))
}

/// `bs[start..end]` is a maximal run of ASCII digits.
pub open spec fn digit_run(bs: Seq<u8>, start: int, end: int) -> bool {
    &&& 0 <= start < end <= bs.len()
    &&& forall|i: int| start <= i < end ==> spec_is_digit(#[trigger] bs[i])
    &&& (end == bs.len() || !spec_is_digit(bs[end]))
}

/// A token agrees with the source bytes under its span.
pub open spec fn token_ok(bs: Seq<u8>, t: Token) -> bool {
    let s = t.span.start as int;
    let e = t.span.end as int;
    match t.kind {
        TokenKind::Eof => s == bs.len() && e == bs.len(),
        TokenKind::Arrow => e == s + 2 && e <= bs.len() && bs[s] == 45u8 && bs[s + 1] == 62u8,
        TokenKind::Identifier(name) => ident_run(bs, s, e) && name@ == bytes_as_chars(
            bs.subrange(s, e),
        ),
        TokenKind::IntLit(v) => digit_run(bs, s, e) && v as int == digits_value(bs.subrange(s, e)),
        TokenKind::StringLit { value, is_triple } => {
            &&& 0 <= s < e <= bs.len()
            &&& bs[s] == 34u8
            &&& is_triple == (s + 2 < bs.len() && bs[s + 1] == 34u8 && bs[s + 2] == 34u8)
        },
        _ => e == s + 1 && e <= bs.len() && spec_punct(bs[s]) == Some(t.kind),
    }
}

/// Tokens agree with the source, lie below `upto`, and appear in source
/// order without overlapping.
pub open spec fn tokens_ok(bs: Seq<u8>, toks: Seq<Token>, upto: int) -> bool {
    &&& forall|i: int| 0 <= i < toks.len() ==> token_ok(bs, #[trigger] toks[i])
    &&& forall|i: int| 0 <= i < toks.len() ==> (#[trigger] toks[i]).span.end <= upto
    &&& forall|i: int, j: int|
        0 <= i < j < toks.len() ==> (#[trigger] toks[i]).span.end <= (#[trigger] toks[j]).span.start
}

/// The lexer's diagnostic codes.
pub open spec fn is_lex_code(c: &str) -> bool {
    c == codes::E_LEX_UNTERMINATED_STRING || c == codes::E_LEX_UNTERMINATED_BLOCK_COMMENT
        || c == codes::E_LEX_UNEXPECTED_CHAR || c == codes::E_LEX_INVALID_ESCAPE
        || c == codes::E_LEX_INVALID_INT
}

/// Every diagnostic is a lexer error whose span lies within `[0, upto]`.
pub open spec fn diags_ok(ds: Seq<Diagnostic>, upto: int) -> bool {
    forall|i: int|
        0 <= i < ds.len() ==> {
            let d = #[trigger] ds[i];
            &&& d.severity == Severity::Error
            &&& is_lex_code(d.code)
            &&& d.span.start <= d.span.end <= upto
        }
}

/// Top-level entry point. Tokenizes a UTF-8 string in a single pass.
///
/// Every token agrees with the bytes under its span (punctuation is the
/// byte it names, identifiers and integers are maximal runs with their text
/// or value, strings start at a quote), tokens come in source order without
/// overlap, the last token is the single `Eof` at the end of input, and every
/// diagnostic is a lexer error inside the source.
pub fn tokenize(source: &str) -> (ts: TokenStream)
    ensures
        tokens_ok(source.spec_bytes(), ts.tokens@, source.spec_bytes().len() as int),
        ts.tokens@.len() >= 1,
        ts.tokens@.last().kind is Eof,
        forall|i: int| 0 <= i < ts.tokens@.len() - 1 ==> !(#[trigger] ts.tokens@[i].kind is Eof),
        diags_ok(ts.diagnostics@, source.spec_bytes().len() as int),
{
    let mut lexer = Lexer::new(source);
    lexer.run();
    TokenStream { tokens: lexer.tokens, diagnostics: lexer.diagnostics }
}

struct Lexer<'s> {
    source: &'s str,
    bytes: &'s [u8],
    pos: usize,
    tokens: Vec<Token>,
    diagnostics: Vec<Diagnostic>,
}

impl<'s> Lexer<'s> {
    spec fn wf(&self) -> bool {
        &&& self.bytes@ == self.source.spec_bytes()
        &&& self.pos <= self.bytes@.len()
        &&& tokens_ok(self.bytes@, self.tokens@, self.pos as int)
        &&& forall|i: int| 0 <= i < self.tokens@.len() ==> !(#[trigger] self.tokens@[i].kind is Eof)
        &&& diags_ok(self.diagnostics@, self.pos as int)
    }

    fn new(source: &'s str) -> (l: Self)
        ensures
            l.wf(),
            l.source == source,
            l.pos == 0,
            l.tokens@.len() == 0,
    {
        Lexer { source, bytes: source.as_bytes(), pos: 0, tokens: Vec::new(), diagnostics: Vec::new() }
    }

    fn run(&mut self)
        requires
            old(self).wf(),
        ensures
            final(self).source == old(self).source,
            tokens_ok(final(self).bytes@, final(self).tokens@, final(self).bytes@.len() as int),
            final(self).bytes@ == final(self).source.spec_bytes(),
            final(self).tokens@.len() >= 1,
            final(self).tokens@.last().kind is Eof,
            forall|i: int|
                0 <= i < final(self).tokens@.len() - 1 ==> !(#[trigger] final(self).tokens@[i].kind is Eof),
            diags_ok(final(self).diagnostics@, final(self).bytes@.len() as int),
    {
        while self.pos < self.bytes.len()
            invariant
                self.wf(),
                self.source == old(self).source,
            decreases self.bytes@.len() - self.pos,
        {
            self.skip_trivia();
            if self.pos >= self.bytes.len() {
                break;
            }
            self.scan_one();
        }
        let end = self.bytes.len();
        let ghost before = self.tokens@;
        self.tokens.push(Token::new(TokenKind::Eof, Span::new(end, end)));
        proof {
            let bs = self.bytes@;
            assert forall|i: int, j: int| 0 <= i < j < self.tokens@.len() implies
                (#[trigger] self.tokens@[i]).span.end <= (#[trigger] self.tokens@[j]).span.start by {
                if j < before.len() {
                    assert(before[i] == self.tokens@[i] && before[j] == self.tokens@[j]);
                } else {
                    assert(before[i] == self.tokens@[i]);
                }
            }
            assert forall|i: int| 0 <= i < self.tokens@.len() implies token_ok(bs, #[trigger] self.tokens@[i]) by {
                if i < before.len() {
                    assert(before[i] == self.tokens@[i]);
                }
            }
            assert forall|i: int| 0 <= i < self.tokens@.len() - 1 implies !(#[trigger] self.tokens@[i].kind is Eof) by {
                assert(before[i] == self.tokens@[i]);
            }
        }
    }

    /// Append a token that ends at the current position.
    fn push_token(&mut self, t: Token)
        requires
            old(self).wf(),
            token_ok(old(self).bytes@, t),
            !(t.kind is Eof),
            t.span.end <= old(self).pos,
            forall|i: int| 0 <= i < old(self).tokens@.len()
                ==> (#[trigger] old(self).tokens@[i]).span.end <= t.span.start,
        ensures
            final(self).wf(),
            final(self).pos == old(self).pos,
            final(self).source == old(self).source,
            final(self).bytes == old(self).bytes,
            final(self).tokens@ == old(self).tokens@.push(t),
            final(self).diagnostics == old(self).diagnostics,
    {
        let ghost before = self.tokens@;
        self.tokens.push(t);
        proof {
            assert forall|i: int, j: int| 0 <= i < j < self.tokens@.len() implies
                (#[trigger] self.tokens@[i]).span.end <= (#[trigger] self.tokens@[j]).span.start by {
                assert(before[i] == self.tokens@[i]);
                if j < before.len() {
                    assert(before[j] == self.tokens@[j]);
                }
            }
            assert forall|i: int| 0 <= i < self.tokens@.len() implies token_ok(self.bytes@, #[trigger] self.tokens@[i]) by {
                if i < before.len() {
                    assert(before[i] == self.tokens@[i]);
                }
            }
            assert forall|i: int| 0 <= i < self.tokens@.len() implies (#[trigger] self.tokens@[i]).span.end <= self.pos by {
                if i < before.len() {
                    assert(before[i] == self.tokens@[i]);
                }
            }
            assert forall|i: int| 0 <= i < self.tokens@.len() implies !(#[trigger] self.tokens@[i].kind is Eof) by {
                if i < before.len() {
                    assert(before[i] == self.tokens@[i]);
                }
            }
        }
    }

    /// Append a lexer error inside the scanned prefix.
    fn push_error(&mut self, code: &'static str, span: Span, message: String)
        requires
            old(self).wf(),
            is_lex_code(code),
            span.start <= span.end <= old(self).pos,
        ensures
            final(self).wf(),
            final(self).pos == old(self).pos,
            final(self).source == old(self).source,
            final(self).bytes == old(self).bytes,
            final(self).tokens == old(self).tokens,
            final(self).diagnostics@.len() == old(self).diagnostics@.len() + 1,
    {
        let ghost before = self.diagnostics@;
        self.diagnostics.push(Diagnostic::error(code, span, message));
        proof {
            assert forall|i: int| 0 <= i < self.diagnostics@.len() implies {
                let d = #[trigger] self.diagnostics@[i];
                &&& d.severity == Severity::Error
                &&& is_lex_code(d.code)
                &&& d.span.start <= d.span.end <= self.pos
            } by {
                if i < before.len() {
                    assert(before[i] == self.diagnostics@[i]);
                }
            }
        }
    }

    /// Move the cursor forward; tokens and diagnostics stay valid since
    /// their bound only grows.
    fn advance_to(&mut self, new_pos: usize)
        requires
            old(self).wf(),
            old(self).pos <= new_pos <= old(self).bytes@.len(),
        ensures
            final(self).wf(),
            final(self).pos == new_pos,
            final(self).source == old(self).source,
            final(self).bytes == old(self).bytes,
            final(self).tokens == old(self).tokens,
            final(self).diagnostics == old(self).diagnostics,
    {
        self.pos = new_pos;
    }

    /// Skip whitespace and comments.
    fn skip_trivia(&mut self)
        requires
            old(self).wf(),
        ensures
            final(self).wf(),
            old(self).pos <= final(self).pos,
            final(self).source == old(self).source,
            final(self).bytes == old(self).bytes,
            final(self).tokens == old(self).tokens,
            final(self).pos < final(self).bytes@.len() ==> !spec_is_whitespace(
                final(self).bytes@[final(self).pos as int],
            ),
    {
        let n = self.bytes.len();
        loop
            invariant
                self.wf(),
                old(self).pos <= self.pos,
                self.source == old(self).source,
                self.bytes == old(self).bytes,
                self.tokens == old(self).tokens,
                n == self.bytes@.len(),
            ensures
                self.wf(),
                old(self).pos <= self.pos,
                self.source == old(self).source,
                self.bytes == old(self).bytes,
                self.tokens == old(self).tokens,
                self.pos < n ==> !spec_is_whitespace(self.bytes@[self.pos as int]),
            decreases n - self.pos,
        {
            let p0 = self.pos;
            let mut p = p0;
            while p < n && is_whitespace(self.bytes[p])
                invariant
                    p0 <= p <= n,
                    n == self.bytes@.len(),
                decreases n - p,
            {
                p = p + 1;
            }
            self.advance_to(p);
            assert(p < n ==> !spec_is_whitespace(self.bytes@[p as int]));
            if n - p > 1 && self.bytes[p] == 47u8 {
                let next = self.bytes[p + 1];
                if next == 47u8 {
                    let mut q = p + 2;
                    while q < n && self.bytes[q] != 10u8
                        invariant
                            p + 2 <= q <= n,
                            n == self.bytes@.len(),
                        decreases n - q,
                    {
                        q = q + 1;
                    }
                    self.advance_to(q);
                    continue;
                } else if next == 42u8 {
                    let start = p;
                    let mut q = p + 2;
                    let mut closed = false;
                    while q < n - 1
                        invariant
                            p + 2 <= q <= n,
                            n == self.bytes@.len(),
                        decreases n - q,
                    {
                        if self.bytes[q] == 42u8 && self.bytes[q + 1] == 47u8 {
                            q = q + 2;
                            closed = true;
                            break;
                        }
                        q = q + 1;
                    }
                    if !closed {
                        self.advance_to(n);
                        self.push_error(
                            codes::E_LEX_UNTERMINATED_BLOCK_COMMENT,
                            Span::new(start, n),
                            String::from_str("unterminated block comment"),
                        );
                    } else {
                        self.advance_to(q);
                    }
                    continue;
                }
            }
            break;
        }
    }

    /// Scan one token (or one diagnostic) at a non-whitespace position.
    fn scan_one(&mut self)
        requires
            old(self).wf(),
            old(self).pos < old(self).bytes@.len(),
        ensures
            final(self).wf(),
            old(self).pos < final(self).pos,
            final(self).source == old(self).source,
            final(self).bytes == old(self).bytes,
    {
        let start = self.pos;
        let b = self.bytes[self.pos];
        proof {
            assert forall|i: int| 0 <= i < self.tokens@.len() implies
                (#[trigger] self.tokens@[i]).span.end <= start by {}
        }
        match punct(b) {
            Some(kind) => {
                self.advance_to(start + 1);
                self.push_token(Token::new(kind, Span::new(start, start + 1)));
                return;
            },
            None => {},
        }
        if b == 45u8 {
            if start + 1 < self.bytes.len() && self.bytes[start + 1] == 62u8 {
                self.advance_to(start + 2);
                self.push_token(Token::new(TokenKind::Arrow, Span::new(start, start + 2)));
            } else {
                self.advance_to(start + 1);
                self.push_error(
                    codes::E_LEX_UNEXPECTED_CHAR,
                    Span::new(start, start + 1),
                    String::from_str("unexpected character `-` (expected `->`)"),
                );
            }
        } else if b == 34u8 {
            self.scan_string(start);
        } else if 48u8 <= b && b <= 57u8 {
            self.scan_int(start);
        } else if is_ident_start(b) {
            self.scan_identifier(start);
        } else {
            let advance = utf8_codepoint_len(b);
            let end = if advance <= self.bytes.len() - start { start + advance } else { self.bytes.len() };
            let shown = decode_char(self.bytes, start, advance);
            let mut text = String::new();
            match shown {
                Some(c) => push_char(&mut text, c),
                None => push_char(&mut text, '?'),
            }
            self.advance_to(end);
            let msg = cat3("unexpected character `", text.as_str(), "`");
            self.push_error(codes::E_LEX_UNEXPECTED_CHAR, Span::new(start, end), msg);
        }
    }

    fn scan_identifier(&mut self, start: usize)
        requires
            old(self).wf(),
            start == old(self).pos,
            start < old(self).bytes@.len(),
            spec_is_ident_start(old(self).bytes@[start as int]),
            forall|i: int| 0 <= i < old(self).tokens@.len()
                ==> (#[trigger] old(self).tokens@[i]).span.end <= start,
        ensures
            final(self).wf(),
            old(self).pos < final(self).pos,
            final(self).source == old(self).source,
            final(self).bytes == old(self).bytes,
    {
        let n = self.bytes.len();
        let ghost bs = self.bytes@;
        let mut p = start + 1;
        let mut name = String::new();
        push_char(&mut name, self.bytes[start] as char);
        assert(name@ =~= bytes_as_chars(bs.subrange(start as int, p as int)));
        while p < n && is_ident_cont(self.bytes[p])
            invariant
                start < p <= n,
                n == bs.len(),
                bs == self.bytes@,
                spec_is_ident_start(bs[start as int]),
                forall|i: int| start <= i < p ==> spec_is_ident_cont(#[trigger] bs[i]),
                name@ == bytes_as_chars(bs.subrange(start as int, p as int)),
            decreases n - p,
        {
            push_char(&mut name, self.bytes[p] as char);
            p = p + 1;
            assert(name@ =~= bytes_as_chars(bs.subrange(start as int, p as int)));
        }
        self.advance_to(p);
        let t = Token::new(TokenKind::Identifier(name), Span::new(start, p));
        self.push_token(t);
    }

    fn scan_int(&mut self, start: usize)
        requires
            old(self).wf(),
            start == old(self).pos,
            start < old(self).bytes@.len(),
            spec_is_digit(old(self).bytes@[start as int]),
            forall|i: int| 0 <= i < old(self).tokens@.len()
                ==> (#[trigger] old(self).tokens@[i]).span.end <= start,
        ensures
            final(self).wf(),
            old(self).pos < final(self).pos,
            final(self).source == old(self).source,
            final(self).bytes == old(self).bytes,
    {
        let n = self.bytes.len();
        let ghost bs = self.bytes@;
        let mut p = start;
        // Accumulate the value; `None` once it no longer fits in an i64.
        let mut value: Option<i64> = Some(0);
        while p < n && 48u8 <= self.bytes[p] && self.bytes[p] <= 57u8
            invariant
                start <= p <= n,
                n == bs.len(),
                bs == self.bytes@,
                forall|i: int| start <= i < p ==> spec_is_digit(#[trigger] bs[i]),
                value matches Some(v) ==> v as int == digits_value(bs.subrange(start as int, p as int)),
                value is None ==> digits_value(bs.subrange(start as int, p as int)) > i64::MAX,
                digits_value(bs.subrange(start as int, p as int)) >= 0,
            decreases n - p,
        {
            let d = (self.bytes[p] - 48u8) as i64;
            proof {
                let sub = bs.subrange(start as int, p as int + 1);
                assert(sub.drop_last() =~= bs.subrange(start as int, p as int));
                assert(sub.last() == bs[p as int]);
            }
            value = match value {
                Some(v) => match v.checked_mul(10) {
                    Some(w) => w.checked_add(d),
                    None => None,
                },
                None => None,
            };
            p = p + 1;
        }
        self.advance_to(p);
        match value {
            Some(v) => {
                self.push_token(Token::new(TokenKind::IntLit(v), Span::new(start, p)));
            },
            None => {
                let text = ascii_text(self.bytes, start, p);
                let msg = cat3("invalid integer literal `", text.as_str(), "`");
                self.push_error(codes::E_LEX_INVALID_INT, Span::new(start, p), msg);
            },
        }
    }

    fn scan_string(&mut self, start: usize)
        requires
            old(self).wf(),
            start == old(self).pos,
            start < old(self).bytes@.len(),
            old(self).bytes@[start as int] == 34u8,
            forall|i: int| 0 <= i < old(self).tokens@.len()
                ==> (#[trigger] old(self).tokens@[i]).span.end <= start,
        ensures
            final(self).wf(),
            old(self).pos < final(self).pos,
            final(self).source == old(self).source,
            final(self).bytes == old(self).bytes,
    {
        let n = self.bytes.len();
        let is_triple = n - start > 2 && self.bytes[start + 1] == 34u8 && self.bytes[start + 2] == 34u8;
        let opener: usize = if is_triple { 3 } else { 1 };
        self.advance_to(start + opener);
        let mut value = String::new();
        loop
            invariant
                self.wf(),
                start < self.pos <= n,
                n == self.bytes@.len(),
                self.source == old(self).source,
                self.bytes == old(self).bytes,
                self.tokens == old(self).tokens,
                self.bytes@[start as int] == 34u8,
            decreases n - self.pos,
        {
            if self.pos >= n {
                self.push_error(
                    codes::E_LEX_UNTERMINATED_STRING,
                    Span::new(start, self.pos),
                    String::from_str("unterminated string literal"),
                );
                break;
            }
            let b = self.bytes[self.pos];
            if is_triple {
                if b == 34u8 && n - self.pos > 2 && self.bytes[self.pos + 1] == 34u8
                    && self.bytes[self.pos + 2] == 34u8 {
                    let p = self.pos + 3;
                    self.advance_to(p);
                    break;
                }
                push_char(&mut value, b as char);
                let p = self.pos + 1;
                self.advance_to(p);
            } else if b == 34u8 {
                let p = self.pos + 1;
                self.advance_to(p);
                break;
            } else if b == 92u8 {
                let p = self.pos + 1;
                self.advance_to(p);
                if self.pos >= n {
                    self.push_error(
                        codes::E_LEX_UNTERMINATED_STRING,
                        Span::new(start, self.pos),
                        String::from_str("unterminated string literal (trailing backslash)"),
                    );
                    break;
                }
                let esc = self.bytes[self.pos];
                let p = self.pos + 1;
                self.advance_to(p);
                if esc == 110u8 {
                    push_char(&mut value, '\n');
                } else if esc == 116u8 {
                    push_char(&mut value, '\t');
                } else if esc == 114u8 {
                    push_char(&mut value, '\r');
                } else if esc == 92u8 {
                    push_char(&mut value, '\\');
                } else if esc == 34u8 {
                    push_char(&mut value, '"');
                } else if esc == 48u8 {
                    push_char(&mut value, '\0');
                } else {
                    let mut shown = String::new();
                    push_char(&mut shown, esc as char);
                    let msg = cat3("invalid escape sequence `\\", shown.as_str(), "`");
                    self.push_error(codes::E_LEX_INVALID_ESCAPE, Span::new(self.pos - 2, self.pos), msg);
                    push_char(&mut value, esc as char);
                }
            } else if b == 10u8 {
                self.push_error(
                    codes::E_LEX_UNTERMINATED_STRING,
                    Span::new(start, self.pos),
                    String::from_str(
                        "unterminated string literal (newline before closing quote — use triple-quoted string for multi-line)",
                    ),
                );
                break;
            } else {
                let cp_len = utf8_codepoint_len(b);
                let here = self.pos;
                match decode_char(self.bytes, here, cp_len) {
                    Some(c) => push_char(&mut value, c),
                    None => push_char(&mut value, '\u{FFFD}'),
                }
                let p = if cp_len <= n - here { here + cp_len } else { n };
                self.advance_to(p);
            }
        }
        let end = self.pos;
        let t = Token::new(TokenKind::StringLit { value, is_triple }, Span::new(start, end));
        self.push_token(t);
    }
}

/// ASCII text of `bs[from..to]`, one character per byte.
fn ascii_text(bs: &[u8], from: usize, to: usize) -> (s: String)
    requires
        from <= to <= bs@.len(),
    ensures
        s@ == bytes_as_chars(bs@.subrange(from as int, to as int)),
{
    let mut s = String::new();
    let mut i = from;
    while i < to
        invariant
            from <= i <= to <= bs@.len(),
            s@ == bytes_as_chars(bs@.subrange(from as int, i as int)),
        decreases to - i,
    {
        push_char(&mut s, bs[i] as char);
        i = i + 1;
        assert(s@ =~= bytes_as_chars(bs@.subrange(from as int, i as int)));
    }
    s
}

/// The character whose UTF-8 encoding (as leading and continuation bytes)
/// is exactly the `width` bytes of `bs` at `from`, if those bytes are one
/// such encoding of a Unicode scalar.
pub open spec fn decoded_at(bs: Seq<u8>, from: int, width: int) -> Option<char> {
    let w = bs.subrange(from, from + width);
    if from + width <= bs.len() && vstd::utf8::valid_leading_and_continuation_bytes_first_codepoint(w)
        && vstd::utf8::length_of_first_codepoint(w) == width && vstd::utf8::is_scalar(
        vstd::utf8::decode_first_codepoint(w),
    ) {
        Some(vstd::utf8::decode_first_codepoint(w) as char)
    } else {
        None
    }
}

/// Decode the character whose UTF-8 encoding is exactly the `width` bytes
/// at `from`, or `None` when those bytes are not one well-formed scalar of
/// that width (or run past the end).
fn decode_char(bs: &[u8], from: usize, width: usize) -> (r: Option<char>)
    requires
        from < bs@.len(),
        1 <= width <= 4,
    ensures
        r == decoded_at(bs@, from as int, width as int),
{
    if width > bs.len() - from {
        return None;
    }
    let ghost w = bs@.subrange(from as int, from + width);
    let b0 = bs[from];
    proof {
        assert(w.len() == width);
        assert(w[0] == b0);
    }
    let r = if width == 1 {
        if b0 > 0x7f {
            None
        } else {
            char_from_scalar((b0 & 0x7f) as u32)
        }
    } else {
        let b1 = bs[from + 1];
        proof {
            assert(w[1] == b1);
        }
        if b1 < 0x80 || b1 > 0xbf {
            None
        } else if width == 2 {
            if b0 < 0xc0 || b0 > 0xdf {
                None
            } else {
                char_from_scalar((((b0 & 0x1f) as u32) << 6u32) | ((b1 & 0x3f) as u32))
            }
        } else {
            let b2 = bs[from + 2];
            proof {
                assert(w[2] == b2);
            }
            if b2 < 0x80 || b2 > 0xbf {
                None
            } else if width == 3 {
                if b0 < 0xe0 || b0 > 0xef {
                    None
                } else {
                    char_from_scalar((((b0 & 0x0f) as u32) << 12u32) | (((b1 & 0x3f) as u32) << 6u32) | ((b2 & 0x3f) as u32))
                }
            } else {
                let b3 = bs[from + 3];
                proof {
                    assert(w[3] == b3);
                }
                if b3 < 0x80 || b3 > 0xbf || b0 < 0xf0 || b0 > 0xf7 {
                    None
                } else {
                    char_from_scalar(
                        (((b0 & 0x07) as u32) << 18u32) | (((b1 & 0x3f) as u32) << 12u32) | (((b2 & 0x3f) as u32) << 6u32) | ((b3
                            & 0x3f) as u32),
                    )
                }
            }
        }
    };
    proof {
        if r is Some {
            vstd::utf8::char_u32_cast(r->0, r->0 as u32);
        }
    }
    r
}

} // verus!
