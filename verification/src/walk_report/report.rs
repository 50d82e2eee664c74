//! The walk report: each diagnostic placed at its line and column, the
//! declaration counts and the severity tally, for one file or for a whole
//! working set, and the plain-text form the `walk` command prints.

use vstd::prelude::*;

use crate::analysis::WorkingSetAnalysis;
use crate::analysis::loader::WorkingSet;
use crate::ast::File;
use crate::diagnostic::{Diagnostic, Severity, spec_severity_name};
use crate::span::{SourceMap, char_count, line_start_before, newline_count};
use crate::text::{decimal_text, u64_text};
use crate::analysis::{analysis_diags, analyze, analyze_working_set, entry_ok, has_entry};
use crate::analysis::loader::keys_distinct;
use crate::analysis::loader::LoadedFile;
use crate::ast::file_ok;
use crate::diagnostic::{DiagView, dv, dvs};
use crate::parser::{front_diags_ok, parse};
use crate::walk_report::{
    SliceCounts, code_count, counts_of_file, exit_code_for, is_parse_class, is_semantic_class, looks_like_memspec,
    maybe_wrong_file_type, spec_exit_code, spec_path_extension, wrong_type_diag,
};

use vstd::string::StringSliceAdditionalSpecFns;

verus! {

// ---------------------------------------------------------------------------
// Located diagnostics
// ---------------------------------------------------------------------------

/// The byte offset `off`, clamped to the end of `bs`.
pub open spec fn clamp_offset(bs: Seq<u8>, off: int) -> int {
    if off <= bs.len() {
        off
    } else {
        bs.len() as int
    }
}

/// The 1-based line holding byte offset `off` of `bs`.
pub open spec fn line_at(bs: Seq<u8>, off: int) -> nat {
    1 + newline_count(bs, clamp_offset(bs, off))
}

/// The 1-based column, in characters, of byte offset `off` of `bs`.
pub open spec fn col_at(bs: Seq<u8>, off: int) -> nat {
    let m = clamp_offset(bs, off);
    1 + char_count(bs, line_start_before(bs, m), m)
}

/// A diagnostic with the line and column where it starts.
#[derive(Debug, Clone)]
pub struct LocatedDiagnostic {
    pub code: &'static str,
    pub severity: Severity,
    pub message: String,
    pub line: u32,
    pub col: u32,
    pub byte_start: usize,
    pub byte_end: usize,
    pub hint: Option<String>,
}

/// `l` is `d` placed in a source whose bytes are `bs`.
pub open spec fn located(l: LocatedDiagnostic, d: Diagnostic, bs: Seq<u8>) -> bool {
    &&& l.code == d.code
    &&& l.severity == d.severity
    &&& l.message == d.message
    &&& l.line == line_at(bs, d.span.start as int)
    &&& l.col == col_at(bs, d.span.start as int)
    &&& l.byte_start == d.span.start
    &&& l.byte_end == d.span.end
    &&& l.hint == d.hint
}

/// `ls` is `ds`, each placed in a source whose bytes are `bs`.
pub open spec fn all_located(ls: Seq<LocatedDiagnostic>, ds: Seq<Diagnostic>, bs: Seq<u8>) -> bool {
    &&& ls.len() == ds.len()
    &&& forall|i: int| 0 <= i < ds.len() ==> located(#[trigger] ls[i], ds[i], bs)
}

fn copy_located(l: &LocatedDiagnostic) -> (r: LocatedDiagnostic)
    ensures
        r == *l,
{
    LocatedDiagnostic {
        code: l.code,
        severity: l.severity,
        message: l.message.clone(),
        line: l.line,
        col: l.col,
        byte_start: l.byte_start,
        byte_end: l.byte_end,
        hint: match &l.hint {
            Some(h) => Some(h.clone()),
            None => None,
        },
    }
}

/// Each diagnostic of `ds` with its line and column in `source`.
pub fn locate_diagnostics(ds: &Vec<Diagnostic>, source: &str) -> (r: Vec<LocatedDiagnostic>)
    requires
        source.spec_bytes().len() < u32::MAX,
    ensures
        all_located(r@, ds@, source.spec_bytes()),
{
    let map = SourceMap::new(source);
    let mut out: Vec<LocatedDiagnostic> = Vec::new();
    let mut i: usize = 0;
    while i < ds.len()
        invariant
            i <= ds@.len(),
            map.spec_source() == source,
            source.spec_bytes().len() < u32::MAX,
            out@.len() == i,
            forall|j: int| 0 <= j < i ==> located(#[trigger] out@[j], ds@[j], source.spec_bytes()),
        decreases ds@.len() - i,
    {
        let d = &ds[i];
        let lc = map.line_col(d.span.start);
        out.push(
            LocatedDiagnostic {
                code: d.code,
                severity: d.severity,
                message: d.message.clone(),
                line: lc.line,
                col: lc.col,
                byte_start: d.span.start,
                byte_end: d.span.end,
                hint: match &d.hint {
                    Some(h) => Some(h.clone()),
                    None => None,
                },
            },
        );
        i = i + 1;
    }
    out
}

// ---------------------------------------------------------------------------
// Tallies
// ---------------------------------------------------------------------------

/// Number of located diagnostics of severity `s`.
pub open spec fn located_count(ls: Seq<LocatedDiagnostic>, s: Severity) -> nat
    decreases ls.len(),
{
    if ls.len() == 0 {
        0
    } else {
        located_count(ls.drop_last(), s) + if ls.last().severity == s {
            1nat
        } else {
            0nat
        }
    }
}

proof fn lemma_located_count_bound(ls: Seq<LocatedDiagnostic>, s: Severity)
    ensures
        located_count(ls, s) <= ls.len(),
    decreases ls.len(),
{
    if ls.len() > 0 {
        lemma_located_count_bound(ls.drop_last(), s);
    }
}

/// Errors, warnings and infos of a report.
#[derive(Debug, Clone, Copy)]
pub struct Summary {
    pub errors: usize,
    pub warnings: usize,
    pub info: usize,
}

/// `sum` tallies the severities of `ls`.
pub open spec fn tallies(sum: Summary, ls: Seq<LocatedDiagnostic>) -> bool {
    &&& sum.errors == located_count(ls, Severity::Error)
    &&& sum.warnings == located_count(ls, Severity::Warning)
    &&& sum.info == located_count(ls, Severity::Info)
}

/// The severity tally of `ls`.
pub fn tally(ls: &Vec<LocatedDiagnostic>) -> (r: Summary)
    ensures
        tallies(r, ls@),
{
    let mut r = Summary { errors: 0, warnings: 0, info: 0 };
    let mut i: usize = 0;
    while i < ls.len()
        invariant
            i <= ls@.len(),
            tallies(r, ls@.subrange(0, i as int)),
        decreases ls@.len() - i,
    {
        assert(ls@.subrange(0, i as int + 1).drop_last() =~= ls@.subrange(0, i as int));
        proof {
            lemma_located_count_bound(ls@.subrange(0, i as int), Severity::Error);
            lemma_located_count_bound(ls@.subrange(0, i as int), Severity::Warning);
            lemma_located_count_bound(ls@.subrange(0, i as int), Severity::Info);
        }
        match ls[i].severity {
            Severity::Error => r.errors = r.errors + 1,
            Severity::Warning => r.warnings = r.warnings + 1,
            Severity::Info => r.info = r.info + 1,
        }
        i = i + 1;
    }
    assert(ls@.subrange(0, ls@.len() as int) =~= ls@);
    r
}

// ---------------------------------------------------------------------------
// Reports
// ---------------------------------------------------------------------------

/// What `walk` reports on a single file.
#[derive(Debug, Clone)]
pub struct WalkReport {
    pub file: String,
    pub slice: SliceCounts,
    pub diagnostics: Vec<LocatedDiagnostic>,
    pub summary: Summary,
}

/// What `walk` reports on one file of a working set.
#[derive(Debug, Clone)]
pub struct MultiWalkEntry {
    pub path: String,
    pub slice: SliceCounts,
    pub diagnostics: Vec<LocatedDiagnostic>,
}

/// What `walk` reports on a working set.
#[derive(Debug, Clone)]
pub struct MultiWalkReport {
    pub root: String,
    pub files: Vec<MultiWalkEntry>,
    pub summary: Summary,
}

impl WalkReport {
    /// The report on `ast`, parsed from `source`, with its diagnostics.
    pub fn build(file: String, ast: &File, diagnostics: &Vec<Diagnostic>, source: &str) -> (r: WalkReport)
        requires
            source.spec_bytes().len() < u32::MAX,
        ensures
            r.file == file,
            counts_of_file(r.slice, *ast),
            all_located(r.diagnostics@, diagnostics@, source.spec_bytes()),
            tallies(r.summary, r.diagnostics@),
    {
        let slice = SliceCounts::from_file(ast);
        let located = locate_diagnostics(diagnostics, source);
        let summary = tally(&located);
        WalkReport { file, slice, diagnostics: located, summary }
    }
}

/// The diagnostics the analysis holds for `path`: those of its first entry
/// with that path, none when it has no such entry.
pub open spec fn diags_for(m: Seq<(String, Vec<Diagnostic>)>, path: Seq<char>) -> Seq<Diagnostic>
    decreases m.len(),
{
    if m.len() == 0 {
        seq![]
    } else if m[0].0@ == path {
        m[0].1@
    } else {
        diags_for(m.drop_first(), path)
    }
}

/// The index of the first entry of `m` with `path`.
fn entry_index(m: &Vec<(String, Vec<Diagnostic>)>, path: &str) -> (r: Option<usize>)
    ensures
        match r {
            Some(j) => j < m@.len() && diags_for(m@, path@) == m@[j as int].1@,
            None => diags_for(m@, path@) == Seq::<Diagnostic>::empty(),
        },
{
    let mut j: usize = 0;
    assert(m@.subrange(0, m@.len() as int) =~= m@);
    while j < m.len()
        invariant
            j <= m@.len(),
            diags_for(m@, path@) == diags_for(m@.subrange(j as int, m@.len() as int), path@),
        decreases m@.len() - j,
    {
        let ghost rest = m@.subrange(j as int, m@.len() as int);
        assert(rest[0] == m@[j as int]);
        assert(rest.drop_first() =~= m@.subrange(j as int + 1, m@.len() as int));
        if crate::text::str_eq(m[j].0.as_str(), path) {
            return Some(j);
        }
        j = j + 1;
    }
    None
}

/// Every file of the set is small enough to count lines in.
pub open spec fn sources_fit(files: Seq<crate::analysis::loader::LoadedFile>) -> bool {
    forall|i: int| 0 <= i < files.len() ==> vstd::utf8::encode_utf8((#[trigger] files[i]).source@).len() < u32::MAX
}

/// Each file of the working set is small enough to count lines in.
pub fn sources_fit_check(ws: &WorkingSet) -> (r: bool)
    ensures
        r == sources_fit(ws.files@),
{
    let mut i: usize = 0;
    while i < ws.files.len()
        invariant
            i <= ws.files@.len(),
            forall|k: int| 0 <= k < i ==> vstd::utf8::encode_utf8((#[trigger] ws.files@[k]).source@).len() < u32::MAX,
        decreases ws.files@.len() - i,
    {
        if ws.files[i].source.as_str().as_bytes().len() >= 0xffff_ffffusize {
            return false;
        }
        i = i + 1;
    }
    true
}

/// `e` reports on the loaded file `lf`, given the analysis entries `m`.
pub open spec fn entry_reports(
    e: MultiWalkEntry,
    lf: crate::analysis::loader::LoadedFile,
    m: Seq<(String, Vec<Diagnostic>)>,
) -> bool {
    &&& e.path == lf.path
    &&& counts_of_file(e.slice, lf.file)
    &&& all_located(e.diagnostics@, diags_for(m, lf.path@), vstd::utf8::encode_utf8(lf.source@))
}

/// The concatenation of the entries' located diagnostics.
pub open spec fn all_entry_diags(es: Seq<MultiWalkEntry>) -> Seq<LocatedDiagnostic>
    decreases es.len(),
{
    if es.len() == 0 {
        seq![]
    } else {
        all_entry_diags(es.drop_last()) + es.last().diagnostics@
    }
}

impl MultiWalkReport {
    /// The report on each file of `ws`, in the set's order, with the
    /// diagnostics `analysis` holds for it.
    pub fn build(ws: &WorkingSet, analysis: &WorkingSetAnalysis) -> (r: MultiWalkReport)
        requires
            sources_fit(ws.files@),
        ensures
            r.root == ws.root,
            r.files@.len() == ws.files@.len(),
            forall|i: int|
                0 <= i < ws.files@.len() ==> entry_reports(#[trigger] r.files@[i], ws.files@[i], analysis.by_file@),
            tallies(r.summary, all_entry_diags(r.files@)),
    {
        let mut files: Vec<MultiWalkEntry> = Vec::new();
        let mut all: Vec<LocatedDiagnostic> = Vec::new();
        let mut i: usize = 0;
        while i < ws.files.len()
            invariant
                i <= ws.files@.len(),
                sources_fit(ws.files@),
                files@.len() == i,
                forall|k: int| 0 <= k < i ==> entry_reports(#[trigger] files@[k], ws.files@[k], analysis.by_file@),
                all@ == all_entry_diags(files@),
            decreases ws.files@.len() - i,
        {
            let lf = &ws.files[i];
            assert(vstd::utf8::encode_utf8(lf.source@).len() < u32::MAX);
            let located = match entry_index(&analysis.by_file, lf.path.as_str()) {
                Some(j) => locate_diagnostics(&analysis.by_file[j].1, lf.source.as_str()),
                None => {
                    let none: Vec<Diagnostic> = Vec::new();
                    locate_diagnostics(&none, lf.source.as_str())
                },
            };
            let ghost before = files@;
            let ghost all_before = all@;
            let mut k: usize = 0;
            while k < located.len()
                invariant
                    k <= located@.len(),
                    all@ == all_before + located@.subrange(0, k as int),
                decreases located@.len() - k,
            {
                all.push(copy_located(&located[k]));
                assert(all_before + located@.subrange(0, k as int + 1) =~= all_before + located@.subrange(0, k as int)
                    + seq![located@[k as int]]);
                k = k + 1;
            }
            assert(located@.subrange(0, located@.len() as int) =~= located@);
            let entry = MultiWalkEntry { path: lf.path.clone(), slice: SliceCounts::from_file(&lf.file), diagnostics: located };
            files.push(entry);
            assert(files@.drop_last() =~= before);
            i = i + 1;
        }
        let sum = tally(&all);
        MultiWalkReport { root: ws.root.clone(), files, summary: sum }
    }
}

// ---------------------------------------------------------------------------
// Plain-text form
// ---------------------------------------------------------------------------

/// The status a walk ends in: incomplete with errors, complete with
/// warnings, or complete.
pub open spec fn spec_walk_status(errors: nat, warnings: nat) -> Seq<char> {
    if errors > 0 {
        "walk-incomplete"@
    } else if warnings > 0 {
        "walk-complete (with warnings)"@
    } else {
        "walk-complete"@
    }
}

pub fn walk_status(errors: usize, warnings: usize) -> (r: &'static str)
    ensures
        r@ == spec_walk_status(errors as nat, warnings as nat),
{
    if errors > 0 {
        "walk-incomplete"
    } else if warnings > 0 {
        "walk-complete (with warnings)"
    } else {
        "walk-complete"
    }
}

/// A labelled count on a line of its own.
pub open spec fn count_line(label: Seq<char>, n: nat) -> Seq<char> {
    label + decimal_text(n) + "\n"@
}

/// The declaration counts, one line each.
pub open spec fn counts_text(c: SliceCounts) -> Seq<char> {
    count_line("  cells:                "@, c.cells as nat) + count_line("  derived:              "@, c.derived as nat)
        + count_line("  associations:         "@, c.associations as nat) + "  events:               "@
        + decimal_text(c.events as nat) + " (steps: "@ + decimal_text(c.steps as nat) + ")\n"@ + count_line(
        "  post_failure rows:    "@,
        c.post_failure as nat,
    ) + count_line("  forbidden_states:     "@, c.forbidden_states as nat) + count_line(
        "  kill_tests:           "@,
        c.kill_tests as nat,
    ) + count_line("  walks declared:       "@, c.walks as nat)
}

/// The tally line and the status line.
pub open spec fn tally_text(errors: nat, warnings: nat, info: nat) -> Seq<char> {
    "  diagnostics:          "@ + decimal_text(errors) + " error(s), "@ + decimal_text(warnings) + " warning(s), "@
        + decimal_text(info) + " info\n"@ + "  status:               "@ + spec_walk_status(errors, warnings) + "\n"@
}

/// One diagnostic of the file at `path`, with its hint on a line of its
/// own.
pub open spec fn located_text(path: Seq<char>, l: LocatedDiagnostic) -> Seq<char> {
    "  ["@ + l.code@ + "] "@ + path + ":"@ + decimal_text(l.line as nat) + ":"@ + decimal_text(l.col as nat) + "  "@
        + spec_severity_name(l.severity) + ": "@ + l.message@ + "\n"@ + match l.hint {
        Some(h) => "        hint: "@ + h@ + "\n"@,
        None => seq![],
    }
}

pub open spec fn located_lines(path: Seq<char>, ls: Seq<LocatedDiagnostic>) -> Seq<char>
    decreases ls.len(),
{
    if ls.len() == 0 {
        seq![]
    } else {
        located_lines(path, ls.drop_last()) + located_text(path, ls.last())
    }
}

fn push_num(n: usize, out: &mut String)
    ensures
        final(out)@ == old(out)@ + decimal_text(n as nat),
{
    let t = u64_text(n as u64);
    out.append(t.as_str());
}

fn push_count_line(label: &str, n: usize, out: &mut String)
    ensures
        final(out)@ == old(out)@ + count_line(label@, n as nat),
{
    out.append(label);
    push_num(n, out);
    out.append("\n");
}

fn push_counts(c: &SliceCounts, out: &mut String)
    ensures
        final(out)@ == old(out)@ + counts_text(*c),
{
    let ghost start = out@;
    push_count_line("  cells:                ", c.cells, out);
    push_count_line("  derived:              ", c.derived, out);
    push_count_line("  associations:         ", c.associations, out);
    out.append("  events:               ");
    push_num(c.events, out);
    out.append(" (steps: ");
    push_num(c.steps, out);
    out.append(")\n");
    push_count_line("  post_failure rows:    ", c.post_failure, out);
    push_count_line("  forbidden_states:     ", c.forbidden_states, out);
    push_count_line("  kill_tests:           ", c.kill_tests, out);
    push_count_line("  walks declared:       ", c.walks, out);
    assert(out@ =~= start + counts_text(*c));
}

fn push_tally(errors: usize, warnings: usize, info: usize, out: &mut String)
    ensures
        final(out)@ == old(out)@ + tally_text(errors as nat, warnings as nat, info as nat),
{
    let ghost start = out@;
    out.append("  diagnostics:          ");
    push_num(errors, out);
    out.append(" error(s), ");
    push_num(warnings, out);
    out.append(" warning(s), ");
    push_num(info, out);
    out.append(" info\n");
    out.append("  status:               ");
    out.append(walk_status(errors, warnings));
    out.append("\n");
    assert(out@ =~= start + tally_text(errors as nat, warnings as nat, info as nat));
}

fn push_located(path: &str, l: &LocatedDiagnostic, out: &mut String)
    ensures
        final(out)@ == old(out)@ + located_text(path@, *l),
{
    let ghost start = out@;
    out.append("  [");
    out.append(l.code);
    out.append("] ");
    out.append(path);
    out.append(":");
    push_num(l.line as usize, out);
    out.append(":");
    push_num(l.col as usize, out);
    out.append("  ");
    out.append(l.severity.as_str());
    out.append(": ");
    out.append(l.message.as_str());
    out.append("\n");
    match &l.hint {
        Some(h) => {
            out.append("        hint: ");
            out.append(h.as_str());
            out.append("\n");
        },
        None => {},
    }
    assert(out@ =~= start + located_text(path@, *l));
}

fn push_located_lines(path: &str, ls: &Vec<LocatedDiagnostic>, out: &mut String)
    ensures
        final(out)@ == old(out)@ + located_lines(path@, ls@),
{
    let ghost start = out@;
    let mut i: usize = 0;
    while i < ls.len()
        invariant
            i <= ls@.len(),
            out@ == start + located_lines(path@, ls@.subrange(0, i as int)),
        decreases ls@.len() - i,
    {
        assert(ls@.subrange(0, i as int + 1).drop_last() =~= ls@.subrange(0, i as int));
        push_located(path, &ls[i], out);
        i = i + 1;
    }
    assert(ls@.subrange(0, ls@.len() as int) =~= ls@);
}

impl WalkReport {
    /// What `walk` prints for the report.
    pub open spec fn spec_text(self) -> Seq<char> {
        "memspec walk: "@ + self.file@ + "\n"@ + "  slice:                "@ + match self.slice.slice_name {
            Some(n) => n@,
            None => "<none>"@,
        } + "\n"@ + counts_text(self.slice) + tally_text(
            self.summary.errors as nat,
            self.summary.warnings as nat,
            self.summary.info as nat,
        ) + if self.diagnostics@.len() == 0 {
            seq![]
        } else {
            "\n"@ + located_lines(self.file@, self.diagnostics@)
        }
    }

    /// The plain-text report.
    pub fn text(&self) -> (r: String)
        ensures
            r@ == self.spec_text(),
    {
        let mut out = String::new();
        out.append("memspec walk: ");
        out.append(self.file.as_str());
        out.append("\n");
        out.append("  slice:                ");
        match &self.slice.slice_name {
            Some(n) => out.append(n.as_str()),
            None => out.append("<none>"),
        }
        out.append("\n");
        push_counts(&self.slice, &mut out);
        push_tally(self.summary.errors, self.summary.warnings, self.summary.info, &mut out);
        if self.diagnostics.len() > 0 {
            out.append("\n");
            push_located_lines(self.file.as_str(), &self.diagnostics, &mut out);
        }
        assert(out@ =~= self.spec_text());
        out
    }
}

/// What `walk` prints for one file of a working set.
pub open spec fn entry_text(e: MultiWalkEntry) -> Seq<char> {
    "\n── "@ + e.path@ + " ──\n"@ + slice_line(e.slice.slice_name) + counts_text(e.slice) + tally_text(
        located_count(e.diagnostics@, Severity::Error),
        located_count(e.diagnostics@, Severity::Warning),
        located_count(e.diagnostics@, Severity::Info),
    ) + located_lines(e.path@, e.diagnostics@)
}

pub open spec fn entries_text(es: Seq<MultiWalkEntry>) -> Seq<char>
    decreases es.len(),
{
    if es.len() == 0 {
        seq![]
    } else {
        entries_text(es.drop_last()) + entry_text(es.last())
    }
}

/// The optional slice line of a working-set entry.
pub open spec fn slice_line(name: Option<String>) -> Seq<char> {
    match name {
        Some(n) => "  slice:                "@ + n@ + "\n"@,
        None => seq![],
    }
}

fn push_slice_line(name: &Option<String>, out: &mut String)
    ensures
        final(out)@ == old(out)@ + slice_line(*name),
{
    match name {
        Some(n) => {
            out.append("  slice:                ");
            out.append(n.as_str());
            out.append("\n");
        },
        None => {},
    }
}

#[verifier::spinoff_prover]
fn push_entry(e: &MultiWalkEntry, out: &mut String)
    ensures
        final(out)@ == old(out)@ + entry_text(*e),
{
    let ghost start = out@;
    out.append("\n── ");
    out.append(e.path.as_str());
    out.append(" ──\n");
    let ghost a = out@;
    push_slice_line(&e.slice.slice_name, out);
    let ghost b = out@;
    push_counts(&e.slice, out);
    let ghost c = out@;
    let t = tally(&e.diagnostics);
    push_tally(t.errors, t.warnings, t.info, out);
    let ghost d = out@;
    push_located_lines(e.path.as_str(), &e.diagnostics, out);
    assert(a == start + "\n── "@ + e.path@ + " ──\n"@);
    assert(out@ =~= start + ("\n── "@ + e.path@ + " ──\n"@ + slice_line(e.slice.slice_name) + counts_text(e.slice)
        + tally_text(t.errors as nat, t.warnings as nat, t.info as nat) + located_lines(e.path@, e.diagnostics@)));
}

impl MultiWalkReport {
    /// What `walk` prints for the working set.
    pub open spec fn spec_text(self) -> Seq<char> {
        "memspec walk: "@ + decimal_text(self.files@.len()) + " file(s) loaded (root: "@ + self.root@ + ")\n"@
            + entries_text(self.files@)
    }

    /// The plain-text report.
    #[verifier::rlimit(30)]
    pub fn text(&self) -> (r: String)
        ensures
            r@ == self.spec_text(),
    {
        let mut out = String::new();
        out.append("memspec walk: ");
        push_num(self.files.len(), &mut out);
        out.append(" file(s) loaded (root: ");
        out.append(self.root.as_str());
        out.append(")\n");
        let ghost start = out@;
        let mut i: usize = 0;
        while i < self.files.len()
            invariant
                i <= self.files@.len(),
                out@ == start + entries_text(self.files@.subrange(0, i as int)),
            decreases self.files@.len() - i,
        {
            assert(self.files@.subrange(0, i as int + 1).drop_last() =~= self.files@.subrange(0, i as int));
            push_entry(&self.files[i], &mut out);
            i = i + 1;
        }
        assert(self.files@.subrange(0, self.files@.len() as int) =~= self.files@);
        assert(out@ =~= self.spec_text());
        out
    }
}

// ---------------------------------------------------------------------------
// Walking a file or a working set
// ---------------------------------------------------------------------------

/// A file drew ten or more unexpected-character errors and has no `slice`
/// or `use` declaration at the start of a line: it is not `.memspec` at all.
pub open spec fn not_memspec(ds: Seq<Diagnostic>, source: Seq<char>) -> bool {
    code_count(ds, "memspec/E0003"@) >= 10 && !looks_like_memspec(source)
}

/// `r` is what `walk` reports of `ds` for the file at `path` holding
/// `source`: the one E0006 diagnostic when it is not `.memspec`, `ds`
/// itself otherwise.
pub open spec fn shown_diags(r: Seq<Diagnostic>, ds: Seq<Diagnostic>, source: Seq<char>, path: Seq<char>) -> bool {
    if not_memspec(ds, source) {
        r.len() == 1 && dv(r[0]) == wrong_type_diag(
            code_count(ds, "memspec/E0003"@),
            vstd::utf8::encode_utf8(source).len() as nat,
            spec_path_extension(path),
        )
    } else {
        r == ds
    }
}

fn copy_diag(d: &Diagnostic) -> (r: Diagnostic)
    ensures
        r == *d,
{
    Diagnostic {
        code: d.code,
        severity: d.severity,
        message: d.message.clone(),
        span: d.span,
        hint: match &d.hint {
            Some(h) => Some(h.clone()),
            None => None,
        },
    }
}

fn copy_diags(ds: &Vec<Diagnostic>) -> (r: Vec<Diagnostic>)
    ensures
        r@ == ds@,
{
    let mut r: Vec<Diagnostic> = Vec::new();
    let mut i: usize = 0;
    while i < ds.len()
        invariant
            i <= ds@.len(),
            r@ == ds@.subrange(0, i as int),
        decreases ds@.len() - i,
    {
        r.push(copy_diag(&ds[i]));
        assert(ds@.subrange(0, i as int + 1) =~= ds@.subrange(0, i as int).push(ds@[i as int]));
        i = i + 1;
    }
    assert(ds@.subrange(0, ds@.len() as int) =~= ds@);
    r
}

/// `ds`, or the one E0006 diagnostic in its place when the file at `path`
/// holding `source` is not `.memspec`.
pub fn shown_for_file(ds: Vec<Diagnostic>, source: &str, path: &str) -> (r: Vec<Diagnostic>)
    ensures
        shown_diags(r@, ds@, source@, path@),
{
    match maybe_wrong_file_type(&ds, source, path) {
        Some(d) => {
            let mut r: Vec<Diagnostic> = Vec::new();
            r.push(d);
            r
        },
        None => ds,
    }
}

/// What `walk --single-file` computes for the file at `path` holding
/// `source`.
pub struct SingleWalk {
    pub report: WalkReport,
    pub exit_code: u8,
}

/// Parses and analyses `source`, the file at `path` (as it is displayed),
/// and reports on it: its parse diagnostics, then the analysis's, or the
/// one E0006 diagnostic in their place when it is not `.memspec`; the exit
/// code follows those diagnostics.
pub fn walk_single_file(path: &str, source: &str) -> (r: SingleWalk)
    requires
        source.spec_bytes().len() < u32::MAX,
    ensures
        r.report.file@ == path@,
        exists|file: File, pds: Seq<Diagnostic>, ads: Seq<Diagnostic>, ds: Seq<Diagnostic>|
            {
                &&& file_ok(source.spec_bytes(), file)
                &&& front_diags_ok(pds, source.spec_bytes().len() as int)
                &&& analysis_diags(file, dvs(ads))
                &&& shown_diags(ds, pds + ads, source@, path@)
                &&& counts_of_file(r.report.slice, file)
                &&& all_located(r.report.diagnostics@, ds, source.spec_bytes())
                &&& tallies(r.report.summary, r.report.diagnostics@)
                &&& r.exit_code == spec_exit_code(ds)
            },
{
    let pr = parse(source);
    let analysis = analyze(&pr.file);
    let mut all = pr.diagnostics;
    let ghost pds = all@;
    let ghost ads = analysis.diagnostics@;
    let mut extra = analysis.diagnostics;
    all.append(&mut extra);
    let shown = shown_for_file(all, source, path);
    let exit_code = exit_code_for(&shown);
    let report = WalkReport::build(path.to_string(), &pr.file, &shown, source);
    proof {
        assert(pds + ads == pds + ads);
    }
    SingleWalk { report, exit_code }
}

/// The index of the first file of `files` at `path`.
pub open spec fn file_index(files: Seq<LoadedFile>, path: Seq<char>) -> Option<int>
    decreases files.len(),
{
    if files.len() == 0 {
        None
    } else if files[0].path@ == path {
        Some(0)
    } else {
        match file_index(files.drop_first(), path) {
            Some(i) => Some(i + 1),
            None => None,
        }
    }
}

proof fn lemma_file_index_bounds(files: Seq<LoadedFile>, path: Seq<char>)
    ensures
        file_index(files, path) matches Some(i) ==> 0 <= i < files.len() && files[i].path@ == path,
    decreases files.len(),
{
    if files.len() > 0 && files[0].path@ != path {
        lemma_file_index_bounds(files.drop_first(), path);
    }
}

fn find_file(files: &Vec<LoadedFile>, path: &str) -> (r: Option<usize>)
    ensures
        match r {
            Some(i) => file_index(files@, path@) == Some(i as int),
            None => file_index(files@, path@) is None,
        },
{
    let mut i: usize = 0;
    assert(files@.subrange(0, files@.len() as int) =~= files@);
    while i < files.len()
        invariant
            i <= files@.len(),
            file_index(files@, path@) == match file_index(files@.subrange(i as int, files@.len() as int), path@) {
                Some(k) => Some(k + i),
                None => None,
            },
        decreases files@.len() - i,
    {
        let ghost rest = files@.subrange(i as int, files@.len() as int);
        assert(rest[0] == files@[i as int]);
        assert(rest.drop_first() =~= files@.subrange(i as int + 1, files@.len() as int));
        if crate::text::str_eq(files[i].path.as_str(), path) {
            return Some(i);
        }
        i = i + 1;
    }
    None
}

/// The analysis entry `e` as `walk` shows it for the working set's
/// `files`: its diagnostics, or the one E0006 diagnostic in their place
/// when the first file at the entry's path is not `.memspec`.
pub open spec fn shown_entry(e: (String, Vec<Diagnostic>), old_e: (String, Vec<Diagnostic>), files: Seq<LoadedFile>) -> bool {
    &&& e.0 == old_e.0
    &&& match file_index(files, old_e.0@) {
        Some(i) => shown_diags(e.1@, old_e.1@, files[i].source@, files[i].path@),
        None => e.1@ == old_e.1@,
    }
}

/// The analysis as `walk` shows it: each file's diagnostics, or the one
/// E0006 diagnostic in their place when the file is not `.memspec`.
pub fn shown_for_working_set(ws: &WorkingSet, analysis: &WorkingSetAnalysis) -> (r: WorkingSetAnalysis)
    ensures
        r.by_file@.len() == analysis.by_file@.len(),
        forall|j: int|
            0 <= j < analysis.by_file@.len() ==> shown_entry(#[trigger] r.by_file@[j], analysis.by_file@[j], ws.files@),
{
    let mut by_file: Vec<(String, Vec<Diagnostic>)> = Vec::new();
    let mut j: usize = 0;
    while j < analysis.by_file.len()
        invariant
            j <= analysis.by_file@.len(),
            by_file@.len() == j,
            forall|k: int| 0 <= k < j ==> shown_entry(#[trigger] by_file@[k], analysis.by_file@[k], ws.files@),
        decreases analysis.by_file@.len() - j,
    {
        let key = &analysis.by_file[j].0;
        let ds = copy_diags(&analysis.by_file[j].1);
        let shown = match find_file(&ws.files, key.as_str()) {
            Some(i) => {
                proof {
                    lemma_file_index_bounds(ws.files@, key@);
                }
                shown_for_file(ds, ws.files[i].source.as_str(), ws.files[i].path.as_str())
            },
            None => ds,
        };
        by_file.push((key.clone(), shown));
        j = j + 1;
    }
    WorkingSetAnalysis { by_file }
}

/// The exit code of a working-set walk: 2 when any file has a lexer or
/// parser error, else 3 for any other error, else 0.
pub open spec fn ws_exit_code(m: Seq<(String, Vec<Diagnostic>)>) -> u8 {
    if exists|j: int, k: int| 0 <= j < m.len() && 0 <= k < m[j].1@.len() && is_parse_class(#[trigger] m[j].1@[k]) {
        2
    } else if exists|j: int, k: int|
        0 <= j < m.len() && 0 <= k < m[j].1@.len() && is_semantic_class(#[trigger] m[j].1@[k]) {
        3
    } else {
        0
    }
}

/// Some diagnostic of `ds` is an error outside the lexer and parser.
fn exit_has_semantic(ds: &Vec<Diagnostic>) -> (r: bool)
    ensures
        r == exists|k: int| 0 <= k < ds@.len() && is_semantic_class(#[trigger] ds@[k]),
{
    let mut i: usize = 0;
    while i < ds.len()
        invariant
            i <= ds@.len(),
            forall|k: int| 0 <= k < i ==> !is_semantic_class(#[trigger] ds@[k]),
        decreases ds@.len() - i,
    {
        let one = single_exit_code(&ds[i]);
        if one == 3 {
            return true;
        }
        i = i + 1;
    }
    false
}

/// The exit code a single diagnostic would give.
fn single_exit_code(d: &Diagnostic) -> (r: u8)
    ensures
        r == 3 <==> is_semantic_class(*d),
{
    let mut v: Vec<Diagnostic> = Vec::new();
    v.push(copy_diag(d));
    let r = exit_code_for(&v);
    proof {
        assert(v@[0] == *d);
        if is_semantic_class(*d) && !is_parse_class(*d) {
            assert(exists|i: int| 0 <= i < v@.len() && is_semantic_class(#[trigger] v@[i]));
        }
        if is_parse_class(*d) {
            assert(exists|i: int| 0 <= i < v@.len() && is_parse_class(#[trigger] v@[i]));
        }
    }
    r
}

/// The exit code of a working-set walk over `analysis`.
pub fn ws_exit_code_for(analysis: &WorkingSetAnalysis) -> (r: u8)
    ensures
        r == ws_exit_code(analysis.by_file@),
{
    let m = &analysis.by_file;
    let mut parse_class = false;
    let mut semantic = false;
    let mut j: usize = 0;
    while j < m.len()
        invariant
            j <= m@.len(),
            m@ == analysis.by_file@,
            parse_class == exists|a: int, k: int|
                0 <= a < j && 0 <= k < m@[a].1@.len() && is_parse_class(#[trigger] m@[a].1@[k]),
            semantic == exists|a: int, k: int|
                0 <= a < j && 0 <= k < m@[a].1@.len() && is_semantic_class(#[trigger] m@[a].1@[k]),
        decreases m@.len() - j,
    {
        let c = exit_code_for(&m[j].1);
        let ghost ds = m@[j as int].1@;
        if c == 2 {
            parse_class = true;
        }
        if c == 3 {
            semantic = true;
        }
        proof {
            if c == 2 {
                let k = choose|k: int| 0 <= k < ds.len() && is_parse_class(#[trigger] ds[k]);
                assert(is_parse_class(m@[j as int].1@[k]));
            }
            if c == 3 {
                let k = choose|k: int| 0 <= k < ds.len() && is_semantic_class(#[trigger] ds[k]);
                assert(is_semantic_class(m@[j as int].1@[k]));
            }
        }
        if c == 2 {
            semantic = semantic || exit_has_semantic(&m[j].1);
        }
        proof {
            assert forall|a: int, k: int|
                0 <= a < j + 1 && 0 <= k < m@[a].1@.len() && is_parse_class(#[trigger] m@[a].1@[k]) implies parse_class by {
                if a == j {
                    assert(ds[k] == m@[a].1@[k]);
                }
            }
            assert forall|a: int, k: int|
                0 <= a < j + 1 && 0 <= k < m@[a].1@.len() && is_semantic_class(#[trigger] m@[a].1@[k]) implies semantic by {
                if a == j {
                    assert(ds[k] == m@[a].1@[k]);
                }
            }
        }
        j = j + 1;
    }
    if parse_class {
        2
    } else if semantic {
        3
    } else {
        0
    }
}

/// What `walk` computes for a working set.
pub struct MultiWalk {
    pub report: MultiWalkReport,
    pub exit_code: u8,
}

/// Analyses the working set and reports on each of its files, a file that
/// is not `.memspec` shown with the one E0006 diagnostic; the exit code
/// follows the diagnostics of all files.
pub fn walk_working_set(ws: &WorkingSet) -> (r: MultiWalk)
    requires
        sources_fit(ws.files@),
    ensures
        exists|a: WorkingSetAnalysis, shown: WorkingSetAnalysis|
            {
                &&& keys_distinct(a.by_file@)
                &&& forall|i: int| 0 <= i < ws.files@.len() ==> has_entry(a.by_file@, (#[trigger] ws.files@[i]).path@)
                &&& forall|j: int| 0 <= j < a.by_file@.len() ==> entry_ok(ws.files@, #[trigger] a.by_file@[j])
                &&& shown.by_file@.len() == a.by_file@.len()
                &&& forall|j: int|
                    0 <= j < a.by_file@.len() ==> shown_entry(#[trigger] shown.by_file@[j], a.by_file@[j], ws.files@)
                &&& r.report.root == ws.root
                &&& r.report.files@.len() == ws.files@.len()
                &&& forall|i: int|
                    0 <= i < ws.files@.len() ==> entry_reports(#[trigger] r.report.files@[i], ws.files@[i], shown.by_file@)
                &&& tallies(r.report.summary, all_entry_diags(r.report.files@))
                &&& r.exit_code == ws_exit_code(shown.by_file@)
            },
{
    let analysis = analyze_working_set(ws);
    let shown = shown_for_working_set(ws, &analysis);
    let report = MultiWalkReport::build(ws, &shown);
    let exit_code = ws_exit_code_for(&shown);
    MultiWalk { report, exit_code }
}

// ---------------------------------------------------------------------------
// Exit code and tally agree
// ---------------------------------------------------------------------------

proof fn lemma_located_count_matches(ls: Seq<LocatedDiagnostic>, ds: Seq<Diagnostic>, bs: Seq<u8>, s: Severity)
    requires
        all_located(ls, ds, bs),
    ensures
        located_count(ls, s) == crate::walk_report::severity_count(ds, s),
    decreases ds.len(),
{
    if ds.len() > 0 {
        assert(located(ls[ls.len() - 1], ds[ds.len() - 1], bs));
        assert forall|i: int| 0 <= i < ds.drop_last().len() implies located(
            #[trigger] ls.drop_last()[i],
            ds.drop_last()[i],
            bs,
        ) by {
            assert(located(ls[i], ds[i], bs));
        }
        lemma_located_count_matches(ls.drop_last(), ds.drop_last(), bs, s);
    }
}

proof fn lemma_no_errors(ds: Seq<Diagnostic>)
    ensures
        (crate::walk_report::severity_count(ds, Severity::Error) == 0) <==> (forall|i: int|
            0 <= i < ds.len() ==> (#[trigger] ds[i]).severity != Severity::Error),
    decreases ds.len(),
{
    if ds.len() > 0 {
        lemma_no_errors(ds.drop_last());
        if crate::walk_report::severity_count(ds, Severity::Error) == 0 {
            assert forall|i: int| 0 <= i < ds.len() implies (#[trigger] ds[i]).severity != Severity::Error by {
                if i < ds.len() - 1 {
                    assert(ds.drop_last()[i] == ds[i]);
                }
            }
        } else {
            if ds.last().severity != Severity::Error {
                let k = choose|k: int| 0 <= k < ds.drop_last().len() && (#[trigger] ds.drop_last()[k]).severity
                    == Severity::Error;
                assert(ds[k] == ds.drop_last()[k]);
            }
        }
    }
}

/// A walk exits with 0 exactly when its report counts no error: the exit
/// code and the tally are taken from the same diagnostics.
pub proof fn law_exit_zero_iff_no_errors(r: WalkReport, ds: Seq<Diagnostic>, bs: Seq<u8>)
    requires
        all_located(r.diagnostics@, ds, bs),
        tallies(r.summary, r.diagnostics@),
    ensures
        (spec_exit_code(ds) == 0) <==> (r.summary.errors == 0),
{
    lemma_located_count_matches(r.diagnostics@, ds, bs, Severity::Error);
    lemma_no_errors(ds);
    if spec_exit_code(ds) == 0 {
        assert forall|i: int| 0 <= i < ds.len() implies (#[trigger] ds[i]).severity != Severity::Error by {
            if ds[i].severity == Severity::Error {
                if is_parse_class(ds[i]) {
                    assert(exists|j: int| 0 <= j < ds.len() && is_parse_class(#[trigger] ds[j]));
                } else {
                    assert(is_semantic_class(ds[i]));
                    assert(exists|j: int| 0 <= j < ds.len() && is_semantic_class(#[trigger] ds[j]));
                }
            }
        }
    } else {
        if exists|j: int| 0 <= j < ds.len() && is_parse_class(#[trigger] ds[j]) {
            let j = choose|j: int| 0 <= j < ds.len() && is_parse_class(#[trigger] ds[j]);
            assert(ds[j].severity == Severity::Error);
        } else {
            let j = choose|j: int| 0 <= j < ds.len() && is_semantic_class(#[trigger] ds[j]);
            assert(ds[j].severity == Severity::Error);
        }
    }
}

/// A working-set walk exits with 0 exactly when no file has an error.
pub proof fn law_working_set_exit_zero_iff_no_errors(m: Seq<(String, Vec<Diagnostic>)>)
    ensures
        (ws_exit_code(m) == 0) <==> !crate::analysis::any_error(m),
{
    if ws_exit_code(m) == 0 {
        assert forall|j: int, k: int| 0 <= j < m.len() && 0 <= k < m[j].1@.len() implies (#[trigger] m[j].1@[k]).severity
            != Severity::Error by {
            if m[j].1@[k].severity == Severity::Error {
                if is_parse_class(m[j].1@[k]) {
                    assert(exists|a: int, b: int|
                        0 <= a < m.len() && 0 <= b < m[a].1@.len() && is_parse_class(#[trigger] m[a].1@[b]));
                } else {
                    assert(exists|a: int, b: int|
                        0 <= a < m.len() && 0 <= b < m[a].1@.len() && is_semantic_class(#[trigger] m[a].1@[b]));
                }
            }
        }
    }
}

} // verus!
