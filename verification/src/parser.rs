//! Recursive-descent parser for `.memspec` v0.
//!
//! Consumes the lexer's token stream and produces a [`File`] AST. The
//! parser is structurally tolerant: it only enforces syntactic shape;
//! semantic checks live in the analysis passes. On an unexpected token it
//! emits a diagnostic and skips ahead, so one round-trip reports every
//! problem.

use vstd::prelude::*;
use vstd::string::StringSliceAdditionalSpecFns;

use crate::ast::{
    BlockDecl, BlockItem, BlockName, Field, FieldValue, File, Ident, Import, MapEntry, SliceDecl,
    block_ok, file_ok, ident_ok, import_ok, item_ok, span_in, spec_value_span, value_ok,
};
use crate::diagnostic::codes;
use crate::diagnostic::{Diagnostic, Severity};
use crate::lexer::{diags_ok, is_lex_code, token_ok, tokenize, tokens_ok};
use crate::span::{Span, spec_join};
use crate::text::{cat, cat3, cat4, is_lit, owned};
use crate::token::{Token, TokenKind};

verus! {

pub struct ParseResult {
    pub file: File,
    pub diagnostics: Vec<Diagnostic>,
}

/// The parser's diagnostic codes.
pub open spec fn is_parse_code(c: &str) -> bool {
    c == codes::E_PARSE_EXPECTED_TOKEN || c == codes::E_PARSE_EXPECTED_IDENT
        || c == codes::E_PARSE_EXPECTED_FIELD_VALUE || c == codes::E_PARSE_UNCLOSED_BLOCK
        || c == codes::E_PARSE_UNEXPECTED_TOKEN || c == codes::E_PARSE_EMPTY_FILE
        || c == codes::E_PARSE_MULTIPLE_SLICES || c == codes::E_PARSE_EXPECTED_SLICE
        || c == codes::E_PARSE_USE_AFTER_DECL || c == codes::E_PARSE_EXPECTED_AS
        || c == codes::E_PARSE_DUPLICATE_IMPORT_ALIAS
}

/// Every diagnostic is an error with a span inside the source whose code
/// is a lexer or parser code.
pub open spec fn front_diags_ok(ds: Seq<Diagnostic>, n: int) -> bool {
    forall|i: int|
        0 <= i < ds.len() ==> {
            let d = #[trigger] ds[i];
            &&& d.severity == Severity::Error
            &&& span_in(d.span, n)
            &&& (is_lex_code(d.code) || is_parse_code(d.code))
        }
}

/// Tokenize then parse. Returns the AST and the lexer diagnostics followed
/// by the parser diagnostics. The AST is always returned (possibly empty)
/// so downstream passes can inspect partial results.
///
/// Every AST node has a span inside the source, and every identifier node
/// is the text of an identifier token found there.
pub fn parse(source: &str) -> (r: ParseResult)
    ensures
        file_ok(source.spec_bytes(), r.file),
        front_diags_ok(r.diagnostics@, source.spec_bytes().len() as int),
{
    let stream = tokenize(source);
    let ghost bs = source.spec_bytes();
    proof {
        lemma_tokens_in(bs, stream.tokens@);
    }
    let mut parser = Parser {
        tokens: &stream.tokens,
        pos: 0,
        diagnostics: Vec::new(),
        bytes: Ghost(bs),
    };
    let file = parser.parse_file();
    let mut diagnostics = stream.diagnostics;
    let ghost lexd = diagnostics@;
    let mut pd = parser.diagnostics;
    let ghost pdd = pd@;
    diagnostics.append(&mut pd);
    proof {
        assert forall|i: int| 0 <= i < diagnostics@.len() implies {
            let d = #[trigger] diagnostics@[i];
            &&& d.severity == Severity::Error
            &&& span_in(d.span, bs.len() as int)
            &&& (is_lex_code(d.code) || is_parse_code(d.code))
        } by {
            if i < lexd.len() {
                assert(diagnostics@[i] == lexd[i]);
            } else {
                assert(diagnostics@[i] == pdd[i - lexd.len()]);
            }
        }
    }
    ParseResult { file, diagnostics }
}

proof fn lemma_token_span_in(bs: Seq<u8>, t: Token)
    requires
        token_ok(bs, t),
    ensures
        span_in(t.span, bs.len() as int),
{
}

proof fn lemma_tokens_in(bs: Seq<u8>, toks: Seq<Token>)
    requires
        tokens_ok(bs, toks, bs.len() as int),
    ensures
        forall|i: int| 0 <= i < toks.len() ==> span_in((#[trigger] toks[i]).span, bs.len() as int),
{
    assert forall|i: int| 0 <= i < toks.len() implies span_in((#[trigger] toks[i]).span, bs.len() as int) by {
        lemma_token_span_in(bs, toks[i]);
    }
}

struct Parser<'t> {
    tokens: &'t Vec<Token>,
    pos: usize,
    diagnostics: Vec<Diagnostic>,
    bytes: Ghost<Seq<u8>>,
}

/// Token kinds that carry no payload.
spec fn is_punct_kind(k: TokenKind) -> bool {
    !(k is Identifier) && !(k is IntLit) && !(k is StringLit) && !(k is Eof)
}

/// `k` is the payload-free kind `want`.
fn same_kind(k: &TokenKind, want: &TokenKind) -> (r: bool)
    requires
        is_punct_kind(*want),
    ensures
        r == (*k == *want),
{
    match (k, want) {
        (TokenKind::LBrace, TokenKind::LBrace) => true,
        (TokenKind::RBrace, TokenKind::RBrace) => true,
        (TokenKind::LBracket, TokenKind::LBracket) => true,
        (TokenKind::RBracket, TokenKind::RBracket) => true,
        (TokenKind::LParen, TokenKind::LParen) => true,
        (TokenKind::RParen, TokenKind::RParen) => true,
        (TokenKind::LAngle, TokenKind::LAngle) => true,
        (TokenKind::RAngle, TokenKind::RAngle) => true,
        (TokenKind::Comma, TokenKind::Comma) => true,
        (TokenKind::Colon, TokenKind::Colon) => true,
        (TokenKind::Semi, TokenKind::Semi) => true,
        (TokenKind::Dot, TokenKind::Dot) => true,
        (TokenKind::Pipe, TokenKind::Pipe) => true,
        (TokenKind::Eq, TokenKind::Eq) => true,
        (TokenKind::Arrow, TokenKind::Arrow) => true,
        _ => false,
    }
}

/// The token at `p`, or the final one past the end.
pub open spec fn tok_at(toks: Seq<Token>, p: int) -> Token {
    if p < toks.len() {
        toks[p]
    } else {
        toks.last()
    }
}

/// A field value can start with this token.
pub open spec fn value_start(k: TokenKind) -> bool {
    ||| k is LBracket
    ||| k is LBrace
    ||| k is StringLit
    ||| k is IntLit
    ||| k is Identifier
}

/// A block name, or the opening brace of an anonymous block, can follow a
/// block keyword with this token.
pub open spec fn block_follow(k: TokenKind) -> bool {
    k is LBrace || k is Identifier || k is IntLit
}

/// The tokens at `p` open a slice declaration: `slice` and its name.
pub open spec fn slice_start(toks: Seq<Token>, p: int) -> bool {
    &&& tok_at(toks, p).kind matches TokenKind::Identifier(kw) && kw@ == "slice"@
    &&& tok_at(toks, p + 1).kind is Identifier
}

/// The token at `p` starts a block item that parses: a field with a value,
/// or a block keyword followed by a name or `{`.
pub open spec fn item_start(toks: Seq<Token>, p: int) -> bool {
    tok_at(toks, p).kind matches TokenKind::Identifier(name) && name@ != "use"@ && ({
        let next = tok_at(toks, p + 1).kind;
        ||| next == TokenKind::Colon && value_start(tok_at(toks, p + 2).kind)
        ||| block_follow(next)
    })
}

/// The tokens at `p` are a whole `use "<path>" as <alias>` declaration.
pub open spec fn use_decl_at(toks: Seq<Token>, p: int) -> bool {
    &&& tok_at(toks, p).kind matches TokenKind::Identifier(kw) && kw@ == "use"@
    &&& tok_at(toks, p + 1).kind is StringLit
    &&& tok_at(toks, p + 2).kind matches TokenKind::Identifier(a) && a@ == "as"@
    &&& tok_at(toks, p + 3).kind is Identifier
}

/// Where skipping from `p` at brace depth `depth` stops: just past the `}`
/// that brings the depth to zero, or at the final end-of-input token.
pub open spec fn block_end_from(toks: Seq<Token>, p: int, depth: int) -> int
    decreases toks.len() - p,
{
    if p < 0 || p >= toks.len() - 1 {
        p
    } else if toks[p].kind == TokenKind::LBrace {
        block_end_from(toks, p + 1, if depth < i64::MAX { depth + 1 } else { depth })
    } else if toks[p].kind == TokenKind::RBrace {
        if depth - 1 <= 0 {
            p + 1
        } else {
            block_end_from(toks, p + 1, depth - 1)
        }
    } else {
        block_end_from(toks, p + 1, depth)
    }
}

impl<'t> Parser<'t> {
    spec fn wf(&self) -> bool {
        let n = self.tokens@.len();
        &&& n >= 1
        &&& self.tokens@[n - 1].kind is Eof
        &&& forall|i: int| 0 <= i < n - 1 ==> !(#[trigger] self.tokens@[i].kind is Eof)
        &&& self.pos < n
        &&& tokens_ok(self.bytes@, self.tokens@, self.bytes@.len() as int)
        &&& forall|i: int| 0 <= i < n ==> span_in((#[trigger] self.tokens@[i]).span, self.bytes@.len() as int)
        &&& front_diags_ok(self.diagnostics@, self.bytes@.len() as int)
    }

    /// `self` is a later state of `old` over the same tokens.
    spec fn follows(&self, old: Parser<'t>) -> bool {
        &&& self.wf()
        &&& self.tokens == old.tokens
        &&& self.bytes == old.bytes
        &&& old.pos <= self.pos
    }

    spec fn remaining(&self) -> int {
        self.tokens@.len() - self.pos
    }

    spec fn cur(&self) -> Token {
        self.tokens@[self.pos as int]
    }

    // -----------------------------------------------------------------
    // Cursor primitives
    // -----------------------------------------------------------------

    fn peek(&self) -> (t: &'t Token)
        requires
            self.wf(),
        ensures
            *t == self.cur(),
            span_in(t.span, self.bytes@.len() as int),
            token_ok(self.bytes@, *t),
    {
        let toks: &'t Vec<Token> = self.tokens;
        &toks[self.pos]
    }

    fn peek_kind(&self) -> (k: &'t TokenKind)
        requires
            self.wf(),
        ensures
            *k == self.cur().kind,
    {
        &self.peek().kind
    }

    fn peek_at(&self, offset: usize) -> (t: &'t Token)
        requires
            self.wf(),
            offset <= 1,
        ensures
            span_in(t.span, self.bytes@.len() as int),
            *t == tok_at(self.tokens@, self.pos + offset),
    {
        let toks: &'t Vec<Token> = self.tokens;
        let last = toks.len() - 1;
        let idx = if self.pos + offset <= last { self.pos + offset } else { last };
        &toks[idx]
    }

    fn bump(&mut self)
        requires
            old(self).wf(),
        ensures
            final(self).follows(*old(self)),
            final(self).diagnostics == old(self).diagnostics,
            old(self).cur().kind is Eof ==> final(self).pos == old(self).pos,
            !(old(self).cur().kind is Eof) ==> final(self).pos == old(self).pos + 1,
    {
        let is_end = self.peek().is_eof();
        let n = self.tokens.len();
        if !is_end {
            assert(self.pos != self.tokens@.len() - 1);
            self.pos = self.pos + 1;
        }
    }

    fn at_eof(&self) -> (b: bool)
        requires
            self.wf(),
        ensures
            b == (self.cur().kind is Eof),
            b == (self.pos == self.tokens@.len() - 1),
    {
        self.peek().is_eof()
    }

    fn at(&self, kind: &TokenKind) -> (b: bool)
        requires
            self.wf(),
            is_punct_kind(*kind),
        ensures
            b == (self.cur().kind == *kind),
    {
        same_kind(self.peek_kind(), kind)
    }

    fn push_diag(&mut self, d: Diagnostic)
        requires
            old(self).wf(),
            d.severity == Severity::Error,
            span_in(d.span, old(self).bytes@.len() as int),
            is_parse_code(d.code),
        ensures
            final(self).follows(*old(self)),
            final(self).pos == old(self).pos,
            final(self).diagnostics@ == old(self).diagnostics@.push(d),
    {
        let ghost before = self.diagnostics@;
        self.diagnostics.push(d);
        proof {
            assert forall|i: int| 0 <= i < self.diagnostics@.len() implies {
                let d = #[trigger] self.diagnostics@[i];
                &&& d.severity == Severity::Error
                &&& span_in(d.span, self.bytes@.len() as int)
                &&& (is_lex_code(d.code) || is_parse_code(d.code))
            } by {
                if i < before.len() {
                    assert(before[i] == self.diagnostics@[i]);
                }
            }
        }
    }

    /// Consume the payload-free token `kind` if it is next.
    fn eat(&mut self, kind: &TokenKind) -> (r: Option<Span>)
        requires
            old(self).wf(),
            is_punct_kind(*kind),
        ensures
            final(self).follows(*old(self)),
            final(self).diagnostics == old(self).diagnostics,
            r matches Some(s) ==> s == old(self).cur().span && final(self).pos == old(self).pos + 1
                && old(self).cur().kind == *kind
                && span_in(s, old(self).bytes@.len() as int),
            r is None ==> final(self).pos == old(self).pos && old(self).cur().kind != *kind,
    {
        if self.at(kind) {
            let span = self.peek().span;
            self.bump();
            Some(span)
        } else {
            None
        }
    }

    /// Require a payload-free token; report it when missing. Returns the
    /// span of the token found there.
    fn expect(&mut self, kind: &TokenKind) -> (s: Span)
        requires
            old(self).wf(),
            is_punct_kind(*kind),
        ensures
            final(self).follows(*old(self)),
            span_in(s, old(self).bytes@.len() as int),
            old(self).cur().kind == *kind ==> final(self).pos == old(self).pos + 1,
            old(self).cur().kind != *kind ==> final(self).pos == old(self).pos,
    {
        match self.eat(kind) {
            Some(span) => span,
            None => {
                let actual = self.peek();
                let span = actual.span;
                let msg = cat4("expected ", kind.label(), ", found ", actual.kind.label());
                self.push_diag(Diagnostic::error(codes::E_PARSE_EXPECTED_TOKEN, span, msg));
                span
            },
        }
    }

    fn expect_ident(&mut self) -> (r: Option<Ident>)
        requires
            old(self).wf(),
        ensures
            final(self).follows(*old(self)),
            r matches Some(id) ==> ident_ok(old(self).bytes@, id) && final(self).pos == old(self).pos + 1
                && old(self).cur().kind is Identifier,
            r is None ==> final(self).pos == old(self).pos,
            r is Some <==> old(self).cur().kind is Identifier,
            r matches Some(id) ==> old(self).cur().kind == TokenKind::Identifier(id.name) && id.span == old(self).cur().span
                && final(self).diagnostics == old(self).diagnostics,
            r is None ==> final(self).diagnostics@.len() == old(self).diagnostics@.len() + 1
                && final(self).diagnostics@.last().code == codes::E_PARSE_EXPECTED_IDENT
                && final(self).diagnostics@.last().span == old(self).cur().span,
    {
        let token = self.peek();
        match &token.kind {
            TokenKind::Identifier(name) => {
                let id = Ident { span: token.span, name: name.clone() };
                self.bump();
                Some(id)
            },
            _ => {
                let msg = cat("expected identifier, found ", token.kind.label());
                self.push_diag(Diagnostic::error(codes::E_PARSE_EXPECTED_IDENT, token.span, msg));
                None
            },
        }
    }

    /// Skip ahead past the `}` that closes the current block, or to the end.
    fn skip_to_block_end(&mut self)
        requires
            old(self).wf(),
        ensures
            final(self).follows(*old(self)),
            final(self).diagnostics == old(self).diagnostics,
            final(self).pos == block_end_from(old(self).tokens@, old(self).pos as int, 1),
    {
        let mut depth: i64 = 1;
        while !self.at_eof()
            invariant
                self.follows(*old(self)),
                self.diagnostics == old(self).diagnostics,
                1 <= depth,
                block_end_from(self.tokens@, self.pos as int, depth as int) == block_end_from(
                    old(self).tokens@,
                    old(self).pos as int,
                    1,
                ),
            decreases self.remaining(),
        {
            if self.at(&TokenKind::LBrace) {
                if depth < i64::MAX {
                    depth = depth + 1;
                }
                self.bump();
                continue;
            } else if self.at(&TokenKind::RBrace) {
                depth = depth - 1;
                self.bump();
                if depth <= 0 {
                    return;
                }
                continue;
            }
            self.bump();
        }
    }

    // -----------------------------------------------------------------
    // Top level
    // -----------------------------------------------------------------

    fn parse_file(&mut self) -> (f: File)
        requires
            old(self).wf(),
        ensures
            final(self).follows(*old(self)),
            file_ok(old(self).bytes@, f),
            old(self).pos == 0 && old(self).cur().kind is Eof ==> f.slice is None,
            f.slice is Some <==> slice_start(old(self).tokens@, old(self).pos as int),
    {
        let start = self.peek().span.start;
        proof {
            self.lemma_starts_ordered();
        }
        if self.at_eof() {
            let msg = owned("empty file: expected a top-level `slice` declaration");
            self.push_diag(Diagnostic::error(codes::E_PARSE_EMPTY_FILE, Span::new(start, start), msg));
            return File { span: Span::new(start, start), slice: None };
        }
        let ghost p0 = self.pos;
        let slice = self.parse_slice();
        if !self.at_eof() {
            let extra_span = self.peek().span;
            let d = Diagnostic::error(
                codes::E_PARSE_MULTIPLE_SLICES,
                extra_span,
                owned("only one top-level `slice` declaration is allowed per file"),
            ).with_hint(owned("v0 grammar permits one slice per .memspec file"));
            self.push_diag(d);
            while !self.at_eof()
                invariant
                    self.follows(*old(self)),
                decreases self.remaining(),
            {
                self.bump();
            }
        }
        let end = self.peek().span.start;
        proof {
            self.lemma_starts_ordered();
            assert(old(self).tokens@[p0 as int].span.start <= self.tokens@[self.pos as int].span.start);
        }
        File { span: Span::new(start, end), slice }
    }

    /// Token starts never decrease along the stream.
    proof fn lemma_starts_ordered(&self)
        requires
            self.wf(),
        ensures
            forall|i: int, j: int|
                0 <= i <= j < self.tokens@.len() ==> (#[trigger] self.tokens@[i]).span.start
                    <= (#[trigger] self.tokens@[j]).span.start,
    {
        assert forall|i: int, j: int| 0 <= i <= j < self.tokens@.len() implies
            (#[trigger] self.tokens@[i]).span.start <= (#[trigger] self.tokens@[j]).span.start by {
            if i < j {
                assert(self.tokens@[i].span.end <= self.tokens@[j].span.start);
            }
        }
    }

    fn parse_slice(&mut self) -> (r: Option<SliceDecl>)
        requires
            old(self).wf(),
        ensures
            final(self).follows(*old(self)),
            r matches Some(s) ==> {
                &&& span_in(s.span, old(self).bytes@.len() as int)
                &&& ident_ok(old(self).bytes@, s.name)
                &&& forall|i: int| 0 <= i < s.imports@.len() ==> import_ok(old(self).bytes@, #[trigger] s.imports@[i])
                &&& forall|i: int| 0 <= i < s.items@.len() ==> item_ok(old(self).bytes@, #[trigger] s.items@[i])
            },
            r is Some <==> slice_start(old(self).tokens@, old(self).pos as int),
            r matches Some(s) ==> tok_at(old(self).tokens@, old(self).pos + 1).kind == TokenKind::Identifier(s.name.name),
    {
        let kw = self.peek();
        match &kw.kind {
            TokenKind::Identifier(kw_name) => {
                if !is_lit(kw_name, "slice") {
                    let msg = cat3("expected top-level `slice` declaration, found `", kw_name.as_str(), "`");
                    let d = Diagnostic::error(codes::E_PARSE_EXPECTED_SLICE, kw.span, msg)
                        .with_hint(owned("a .memspec file must begin with `slice IDENT { ... }`"));
                    self.push_diag(d);
                    return None;
                }
            },
            _ => {
                let msg = cat("expected `slice` keyword, found ", kw.kind.label());
                self.push_diag(Diagnostic::error(codes::E_PARSE_EXPECTED_SLICE, kw.span, msg));
                return None;
            },
        }
        let kw_span = kw.span;
        self.bump();
        let name = match self.expect_ident() {
            Some(n) => n,
            None => return None,
        };
        self.expect(&TokenKind::LBrace);
        let imports = self.parse_imports();
        let items = self.parse_block_items();
        let close_span = self.expect(&TokenKind::RBrace);
        Some(SliceDecl { span: kw_span.join(close_span), name, imports, items })
    }

    /// Zero or more `use "<path>" as <alias>` declarations at the top of the
    /// slice body. Stops at the first non-`use` token.
    fn parse_imports(&mut self) -> (r: Vec<Import>)
        requires
            old(self).wf(),
        ensures
            final(self).follows(*old(self)),
            forall|i: int| 0 <= i < r@.len() ==> import_ok(old(self).bytes@, #[trigger] r@[i]),
            use_decl_at(old(self).tokens@, old(self).pos as int) ==> r@.len() >= 1 && (tok_at(
                old(self).tokens@,
                old(self).pos + 1,
            ).kind matches TokenKind::StringLit { value, .. } && r@[0].path == value) && tok_at(
                old(self).tokens@,
                old(self).pos + 3,
            ).kind == TokenKind::Identifier(r@[0].alias.name),
    {
        let mut imports: Vec<Import> = Vec::new();
        loop
            invariant
                self.follows(*old(self)),
                forall|i: int| 0 <= i < imports@.len() ==> import_ok(self.bytes@, #[trigger] imports@[i]),
                use_decl_at(old(self).tokens@, old(self).pos as int) ==> (self.pos == old(self).pos && imports@.len() == 0)
                    || (imports@.len() >= 1 && (tok_at(old(self).tokens@, old(self).pos + 1).kind matches TokenKind::StringLit {
                    value,
                    ..
                } && imports@[0].path == value) && tok_at(old(self).tokens@, old(self).pos + 3).kind == TokenKind::Identifier(
                    imports@[0].alias.name,
                )),
            ensures
                self.follows(*old(self)),
                forall|i: int| 0 <= i < imports@.len() ==> import_ok(self.bytes@, #[trigger] imports@[i]),
                use_decl_at(old(self).tokens@, old(self).pos as int) ==> imports@.len() >= 1 && (tok_at(
                    old(self).tokens@,
                    old(self).pos + 1,
                ).kind matches TokenKind::StringLit { value, .. } && imports@[0].path == value) && tok_at(
                    old(self).tokens@,
                    old(self).pos + 3,
                ).kind == TokenKind::Identifier(imports@[0].alias.name),
            decreases self.remaining(),
        {
            let head = self.peek();
            let is_use = match &head.kind {
                TokenKind::Identifier(name) => is_lit(name, "use"),
                _ => false,
            };
            if !is_use {
                proof {
                    if self.pos == old(self).pos {
                        assert(tok_at(old(self).tokens@, old(self).pos as int) == self.cur());
                    }
                    assert(use_decl_at(old(self).tokens@, old(self).pos as int) ==> imports@.len() >= 1 && (tok_at(
                        old(self).tokens@,
                        old(self).pos + 1,
                    ).kind matches TokenKind::StringLit { value, .. } && imports@[0].path == value) && tok_at(
                        old(self).tokens@,
                        old(self).pos + 3,
                    ).kind == TokenKind::Identifier(imports@[0].alias.name));
                }
                break;
            }
            let kw_span = head.span;
            self.bump();

            let path_token = self.peek();
            let (path_value, path_span) = match &path_token.kind {
                TokenKind::StringLit { value, .. } => {
                    let span = path_token.span;
                    let v = value.clone();
                    self.bump();
                    (v, span)
                },
                _ => {
                    let msg = cat("expected string-literal path after `use`, found ", path_token.kind.label());
                    self.push_diag(Diagnostic::error(codes::E_PARSE_EXPECTED_TOKEN, path_token.span, msg));
                    self.bump();
                    continue;
                },
            };

            let as_token = self.peek();
            match &as_token.kind {
                TokenKind::Identifier(as_name) => {
                    if !is_lit(as_name, "as") {
                        let msg = cat3("expected `as` keyword after import path, found `", as_name.as_str(), "`");
                        self.push_diag(Diagnostic::error(codes::E_PARSE_EXPECTED_AS, as_token.span, msg));
                        self.bump();
                        continue;
                    }
                },
                _ => {
                    let msg = cat("expected `as` after import path, found ", as_token.kind.label());
                    self.push_diag(Diagnostic::error(codes::E_PARSE_EXPECTED_AS, as_token.span, msg));
                    continue;
                },
            }
            self.bump();

            let alias = match self.expect_ident() {
                Some(a) => a,
                None => continue,
            };

            let mut dup = false;
            let mut k: usize = 0;
            while k < imports.len()
                invariant
                    k <= imports@.len(),
                decreases imports@.len() - k,
            {
                if imports[k].alias.name == alias.name {
                    dup = true;
                }
                k = k + 1;
            }
            if dup {
                let msg = cat3("duplicate import alias `", alias.name.as_str(), "`");
                let d = Diagnostic::error(codes::E_PARSE_DUPLICATE_IMPORT_ALIAS, alias.span, msg)
                    .with_hint(owned("each `use` declaration must have a distinct alias within the slice"));
                self.push_diag(d);
            }
            let import_span = kw_span.join(alias.span);
            imports.push(Import { span: import_span, path: path_value, path_span, alias });
        }
        imports
    }

    // -----------------------------------------------------------------
    // Block bodies
    // -----------------------------------------------------------------

    fn parse_block_items(&mut self) -> (r: Vec<BlockItem>)
        requires
            old(self).wf(),
        ensures
            final(self).follows(*old(self)),
            forall|i: int| 0 <= i < r@.len() ==> item_ok(old(self).bytes@, #[trigger] r@[i]),
            item_start(old(self).tokens@, old(self).pos as int) ==> r@.len() >= 1,
        decreases old(self).remaining(), 2int,
    {
        let mut items: Vec<BlockItem> = Vec::new();
        while !self.at_eof() && !self.at(&TokenKind::RBrace)
            invariant
                self.follows(*old(self)),
                forall|i: int| 0 <= i < items@.len() ==> item_ok(self.bytes@, #[trigger] items@[i]),
                item_start(old(self).tokens@, old(self).pos as int) ==> (self.pos == old(self).pos || items@.len() >= 1),
            decreases self.remaining(),
        {
            let ghost before = self.pos;
            match self.parse_block_item() {
                Some(it) => items.push(it),
                None => {
                    if !self.at_eof() {
                        self.bump();
                    }
                },
            }
        }
        items
    }

    /// One item in a block body: a field (`key: value`) or a nested block
    /// (`keyword [name] { ... }`), told apart by one token of lookahead.
    fn parse_block_item(&mut self) -> (r: Option<BlockItem>)
        requires
            old(self).wf(),
        ensures
            final(self).follows(*old(self)),
            r matches Some(it) ==> item_ok(old(self).bytes@, it) && final(self).pos > old(self).pos,
            r is Some <==> item_start(old(self).tokens@, old(self).pos as int),
        decreases old(self).remaining(), 1int,
    {
        let head = self.peek();
        let is_use = match &head.kind {
            TokenKind::Identifier(head_name) => is_lit(head_name, "use"),
            _ => {
                let msg = cat(
                    "expected identifier (field name or block keyword), found ",
                    head.kind.label(),
                );
                self.push_diag(Diagnostic::error(codes::E_PARSE_UNEXPECTED_TOKEN, head.span, msg));
                return None;
            },
        };
        if is_use {
            let d = Diagnostic::error(
                codes::E_PARSE_USE_AFTER_DECL,
                head.span,
                owned("`use` declarations must appear at the top of the slice body, before any other declarations"),
            ).with_hint(owned("move all `use \"...\" as <alias>` lines to immediately after the slice's opening `{`"));
            self.push_diag(d);
            self.bump();
            let is_str = match self.peek_kind() {
                TokenKind::StringLit { .. } => true,
                _ => false,
            };
            if is_str {
                self.bump();
            }
            let is_as = match self.peek_kind() {
                TokenKind::Identifier(s) => is_lit(s, "as"),
                _ => false,
            };
            if is_as {
                self.bump();
            }
            let is_ident = match self.peek_kind() {
                TokenKind::Identifier(_) => true,
                _ => false,
            };
            if is_ident {
                self.bump();
            }
            return None;
        }
        let next = self.peek_at(1);
        match &next.kind {
            TokenKind::Colon => {
                match self.parse_field() {
                    Some(f) => Some(BlockItem::Field(f)),
                    None => None,
                }
            },
            TokenKind::LBrace | TokenKind::Identifier(_) | TokenKind::IntLit(_) => {
                match self.parse_block_decl() {
                    Some(b) => Some(BlockItem::Block(b)),
                    None => None,
                }
            },
            other => {
                let span = next.span;
                let msg = cat4(
                    "expected `:` (field), `{` (anonymous block), or identifier/integer (named block) after `",
                    head.kind.label(),
                    "`, found ",
                    other.label(),
                );
                self.push_diag(Diagnostic::error(codes::E_PARSE_UNEXPECTED_TOKEN, span, msg));
                self.bump();
                None
            },
        }
    }

    fn parse_field(&mut self) -> (r: Option<Field>)
        requires
            old(self).wf(),
        ensures
            final(self).follows(*old(self)),
            r matches Some(f) ==> item_ok(old(self).bytes@, BlockItem::Field(f)) && final(self).pos > old(self).pos,
            r is Some <==> old(self).cur().kind is Identifier && value_start(
                if tok_at(old(self).tokens@, old(self).pos + 1).kind == TokenKind::Colon {
                    tok_at(old(self).tokens@, old(self).pos + 2).kind
                } else {
                    tok_at(old(self).tokens@, old(self).pos + 1).kind
                },
            ),
        decreases old(self).remaining(), 0int,
    {
        let key = match self.expect_ident() {
            Some(k) => k,
            None => return None,
        };
        self.expect(&TokenKind::Colon);
        let value = match self.parse_field_value() {
            Some(v) => v,
            None => return None,
        };
        let span = key.span.join(value.span());
        Some(Field { span, key, value })
    }

    fn parse_block_decl(&mut self) -> (r: Option<BlockDecl>)
        requires
            old(self).wf(),
        ensures
            final(self).follows(*old(self)),
            r matches Some(b) ==> block_ok(old(self).bytes@, b) && final(self).pos > old(self).pos,
            r is Some <==> old(self).cur().kind is Identifier && block_follow(tok_at(old(self).tokens@, old(self).pos + 1).kind),
        decreases old(self).remaining(), 0int,
    {
        let kind = match self.expect_ident() {
            Some(k) => k,
            None => return None,
        };
        let tok = self.peek();
        let name = match &tok.kind {
            TokenKind::LBrace => None,
            TokenKind::Identifier(_) => {
                match self.expect_ident() {
                    Some(id) => Some(BlockName::Ident(id)),
                    None => return None,
                }
            },
            TokenKind::IntLit(value) => {
                let span = tok.span;
                let v = *value;
                self.bump();
                Some(BlockName::Int { span, value: v })
            },
            other => {
                let span = tok.span;
                let msg = cat3(
                    "expected block name (identifier or integer) or `{`, found ",
                    other.label(),
                    "",
                );
                self.push_diag(Diagnostic::error(codes::E_PARSE_UNEXPECTED_TOKEN, span, msg));
                return None;
            },
        };
        self.expect(&TokenKind::LBrace);
        let items = self.parse_block_items();
        let close_span = if self.at(&TokenKind::RBrace) {
            let s = self.peek().span;
            self.bump();
            s
        } else {
            let msg = cat3("unclosed `", kind.name.as_str(), "` block (expected `}`)");
            self.push_diag(Diagnostic::error(codes::E_PARSE_UNCLOSED_BLOCK, kind.span, msg));
            kind.span
        };
        Some(BlockDecl { span: kind.span.join(close_span), kind, name, items })
    }

    // -----------------------------------------------------------------
    // Field values
    // -----------------------------------------------------------------

    fn parse_field_value(&mut self) -> (r: Option<FieldValue>)
        requires
            old(self).wf(),
        ensures
            final(self).follows(*old(self)),
            r matches Some(v) ==> value_ok(old(self).bytes@, v) && final(self).pos > old(self).pos,
            r is None ==> final(self).pos == old(self).pos,
            r is Some <==> value_start(old(self).cur().kind),
        decreases old(self).remaining(), 1int,
    {
        let token = self.peek();
        match &token.kind {
            TokenKind::LBracket => Some(self.parse_list()),
            TokenKind::LBrace => Some(self.parse_map()),
            TokenKind::StringLit { value, is_triple } => {
                let span = token.span;
                let v = value.clone();
                let triple = *is_triple;
                self.bump();
                Some(FieldValue::String { span, value: v, is_triple: triple })
            },
            TokenKind::IntLit(n) => {
                let span = token.span;
                let v = *n;
                self.bump();
                Some(FieldValue::Int { span, value: v })
            },
            TokenKind::Identifier(name) => {
                let head = Ident { span: token.span, name: name.clone() };
                self.bump();
                if self.at(&TokenKind::LAngle) {
                    Some(self.parse_type_app(head))
                } else if self.at(&TokenKind::LParen) {
                    Some(self.parse_call(head))
                } else if self.at(&TokenKind::Dot) {
                    self.bump();
                    match self.expect_ident() {
                        Some(name_id) => {
                            let span = head.span.join(name_id.span);
                            Some(FieldValue::QualifiedIdent { span, alias: head, name: name_id })
                        },
                        None => Some(ident_to_value(head)),
                    }
                } else {
                    Some(ident_to_value(head))
                }
            },
            other => {
                let msg = cat("expected field value, found ", other.label());
                self.push_diag(Diagnostic::error(codes::E_PARSE_EXPECTED_FIELD_VALUE, token.span, msg));
                None
            },
        }
    }

    fn parse_list(&mut self) -> (r: FieldValue)
        requires
            old(self).wf(),
            old(self).cur().kind is LBracket,
        ensures
            final(self).follows(*old(self)),
            value_ok(old(self).bytes@, r),
            final(self).pos > old(self).pos,
        decreases old(self).remaining(), 0int,
    {
        let open_span = self.expect(&TokenKind::LBracket);
        let mut items: Vec<FieldValue> = Vec::new();
        while !self.at_eof() && !self.at(&TokenKind::RBracket)
            invariant
                self.follows(*old(self)),
                self.pos > old(self).pos,
                forall|i: int| 0 <= i < items@.len() ==> value_ok(self.bytes@, #[trigger] items@[i]),
            decreases self.remaining(),
        {
            match self.parse_field_value() {
                Some(v) => items.push(v),
                None => {
                    if !self.at_eof() {
                        self.bump();
                    }
                },
            }
            if !self.at(&TokenKind::RBracket) {
                let _ = self.eat(&TokenKind::Comma);
            }
        }
        let close_span = self.expect(&TokenKind::RBracket);
        FieldValue::List { span: open_span.join(close_span), items }
    }

    fn parse_map(&mut self) -> (r: FieldValue)
        requires
            old(self).wf(),
            old(self).cur().kind is LBrace,
        ensures
            final(self).follows(*old(self)),
            value_ok(old(self).bytes@, r),
            final(self).pos > old(self).pos,
        decreases old(self).remaining(), 0int,
    {
        let open_span = self.expect(&TokenKind::LBrace);
        let mut entries: Vec<MapEntry> = Vec::new();
        while !self.at_eof() && !self.at(&TokenKind::RBrace)
            invariant
                self.follows(*old(self)),
                self.pos > old(self).pos,
                forall|i: int| 0 <= i < entries@.len() ==> {
                    &&& span_in((#[trigger] entries@[i]).span, self.bytes@.len() as int)
                    &&& ident_ok(self.bytes@, entries@[i].key)
                    &&& value_ok(self.bytes@, entries@[i].value)
                },
            decreases self.remaining(),
        {
            let key = match self.expect_ident() {
                Some(k) => k,
                None => {
                    if !self.at_eof() {
                        self.bump();
                    }
                    continue;
                },
            };
            self.expect(&TokenKind::Colon);
            let value = match self.parse_field_value() {
                Some(v) => v,
                None => continue,
            };
            let span = key.span.join(value.span());
            entries.push(MapEntry { span, key, value });
            if !self.at(&TokenKind::RBrace) {
                let _ = self.eat(&TokenKind::Comma);
            }
        }
        let close_span = self.expect(&TokenKind::RBrace);
        FieldValue::Mapping { span: open_span.join(close_span), entries }
    }

    /// `IDENT < param (sep param)* >`. The first separator met (`|` or `,`)
    /// fixes whether the application is an alternation.
    fn parse_type_app(&mut self, head: Ident) -> (r: FieldValue)
        requires
            old(self).wf(),
            ident_ok(old(self).bytes@, head),
            old(self).cur().kind is LAngle,
        ensures
            final(self).follows(*old(self)),
            value_ok(old(self).bytes@, r),
            r matches FieldValue::TypeApp { head: h, .. } && h == head,
        decreases old(self).remaining(), 0int,
    {
        let _lt = self.expect(&TokenKind::LAngle);
        let mut params: Vec<FieldValue> = Vec::new();
        let mut alternation = false;
        let mut saw_separator = false;
        if !self.at(&TokenKind::RAngle) {
            match self.parse_field_value() {
                Some(v) => params.push(v),
                None => {},
            }
            loop
                invariant
                    self.follows(*old(self)),
                    self.pos > old(self).pos,
                    forall|i: int| 0 <= i < params@.len() ==> value_ok(self.bytes@, #[trigger] params@[i]),
                decreases self.remaining(),
            {
                if self.at(&TokenKind::Pipe) {
                    if !saw_separator {
                        alternation = true;
                        saw_separator = true;
                    }
                    self.bump();
                } else if self.at(&TokenKind::Comma) {
                    if !saw_separator {
                        alternation = false;
                        saw_separator = true;
                    }
                    self.bump();
                } else {
                    break;
                }
                if self.at(&TokenKind::RAngle) {
                    break;
                }
                match self.parse_field_value() {
                    Some(v) => params.push(v),
                    None => break,
                }
            }
        }
        let close_span = self.expect(&TokenKind::RAngle);
        FieldValue::TypeApp { span: head.span.join(close_span), head, params, alternation }
    }

    /// `IDENT ( arg (, arg)* )`.
    fn parse_call(&mut self, head: Ident) -> (r: FieldValue)
        requires
            old(self).wf(),
            ident_ok(old(self).bytes@, head),
            old(self).cur().kind is LParen,
        ensures
            final(self).follows(*old(self)),
            value_ok(old(self).bytes@, r),
            r matches FieldValue::Call { head: h, .. } && h == head,
        decreases old(self).remaining(), 0int,
    {
        let _lp = self.expect(&TokenKind::LParen);
        let mut args: Vec<FieldValue> = Vec::new();
        if !self.at(&TokenKind::RParen) {
            match self.parse_field_value() {
                Some(v) => args.push(v),
                None => {},
            }
            while self.at(&TokenKind::Comma)
                invariant
                    self.follows(*old(self)),
                    self.pos > old(self).pos,
                    forall|i: int| 0 <= i < args@.len() ==> value_ok(self.bytes@, #[trigger] args@[i]),
                decreases self.remaining(),
            {
                self.bump();
                if self.at(&TokenKind::RParen) {
                    break;
                }
                match self.parse_field_value() {
                    Some(v) => args.push(v),
                    None => break,
                }
            }
        }
        let close_span = self.expect(&TokenKind::RParen);
        FieldValue::Call { span: head.span.join(close_span), head, args }
    }
}

/// A bare identifier: `true` / `false` become booleans, anything else stays
/// an identifier for the analysis passes to interpret.
fn ident_to_value(id: Ident) -> (v: FieldValue)
    ensures
        v == (if id.name@ == "true"@ {
            FieldValue::Bool { span: id.span, value: true }
        } else if id.name@ == "false"@ {
            FieldValue::Bool { span: id.span, value: false }
        } else {
            FieldValue::Ident(id)
        }),
{
    if is_lit(&id.name, "true") {
        FieldValue::Bool { span: id.span, value: true }
    } else if is_lit(&id.name, "false") {
        FieldValue::Bool { span: id.span, value: false }
    } else {
        FieldValue::Ident(id)
    }
}

} // verus!
