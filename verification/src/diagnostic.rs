//! Diagnostics produced by the lexer, parser, and analyzer.

use vstd::prelude::*;

use crate::span::Span;

pub mod codes;

verus! {

#[derive(Debug, Clone, Copy, PartialEq, Eq, Structural)]
pub enum Severity {
    Error,
    Warning,
    Info,
}

impl Severity {
    /// Lower-case display name.
    pub fn as_str(self) -> (s: &'static str)
        ensures
            s@ == spec_severity_name(self),
    {
        match self {
            Severity::Error => "error",
            Severity::Warning => "warning",
            Severity::Info => "info",
        }
    }
}

pub open spec fn spec_severity_name(s: Severity) -> Seq<char> {
    match s {
        Severity::Error => "error"@,
        Severity::Warning => "warning"@,
        Severity::Info => "info"@,
    }
}

#[derive(Debug, Clone)]
pub struct Diagnostic {
    pub code: &'static str,
    pub severity: Severity,
    pub message: String,
    pub span: Span,
    pub hint: Option<String>,
}

impl Diagnostic {
    pub fn error(code: &'static str, span: Span, message: String) -> (d: Self)
        ensures
            d.code == code,
            d.severity == Severity::Error,
            d.message == message,
            d.span == span,
            d.hint is None,
    {
        Diagnostic { code, severity: Severity::Error, message, span, hint: None }
    }

    pub fn warning(code: &'static str, span: Span, message: String) -> (d: Self)
        ensures
            d.code == code,
            d.severity == Severity::Warning,
            d.message == message,
            d.span == span,
            d.hint is None,
    {
        Diagnostic { code, severity: Severity::Warning, message, span, hint: None }
    }

    pub fn info(code: &'static str, span: Span, message: String) -> (d: Self)
        ensures
            d.code == code,
            d.severity == Severity::Info,
            d.message == message,
            d.span == span,
            d.hint is None,
    {
        Diagnostic { code, severity: Severity::Info, message, span, hint: None }
    }

    /// The same diagnostic with `hint` attached.
    pub fn with_hint(self, hint: String) -> (d: Self)
        ensures
            d.code == self.code,
            d.severity == self.severity,
            d.message == self.message,
            d.span == self.span,
            d.hint == Some(hint),
    {
        let mut d = self;
        d.hint = Some(hint);
        d
    }
}

/// What a diagnostic says, as plain values: code, severity, message, span
/// and hint.
pub type DiagView = (Seq<char>, Severity, Seq<char>, Span, Option<Seq<char>>);

pub open spec fn dv(d: Diagnostic) -> DiagView {
    (
        d.code@,
        d.severity,
        d.message@,
        d.span,
        match d.hint {
            Some(h) => Some(h@),
            None => None,
        },
    )
}

pub open spec fn dvs(ds: Seq<Diagnostic>) -> Seq<DiagView> {
    ds.map_values(|d: Diagnostic| dv(d))
}

/// A diagnostic view with no hint.
pub open spec fn plain(code: &str, sev: Severity, msg: Seq<char>, span: Span) -> DiagView {
    (code@, sev, msg, span, None)
}

/// A diagnostic view with a hint.
pub open spec fn hinted(code: &str, sev: Severity, msg: Seq<char>, span: Span, hint: Seq<char>) -> DiagView {
    (code@, sev, msg, span, Some(hint))
}

/// Append one diagnostic.
pub fn emit(out: &mut Vec<Diagnostic>, d: Diagnostic)
    ensures
        final(out)@ == old(out)@.push(d),
        dvs(final(out)@) == dvs(old(out)@).push(dv(d)),
{
    out.push(d);
    assert(dvs(out@) =~= dvs(old(out)@).push(dv(d)));
}

/// `dvs` distributes over concatenation.
pub proof fn lemma_dvs_concat(a: Seq<Diagnostic>, b: Seq<Diagnostic>)
    ensures
        dvs(a + b) == dvs(a) + dvs(b),
{
    assert(dvs(a + b) =~= dvs(a) + dvs(b));
}

} // verus!
