//! The viewer's lists: the discovered files, the per-kind counts of a
//! slice, and the diagnostics of the working set, errors first.

use vstd::prelude::*;

use crate::analysis::WorkingSetAnalysis;
use crate::analysis::loader::{path_before, same_path, spec_path_before, spec_path_key};
use crate::ast::{BlockItem, SliceDecl};
use crate::browse::keys::{Pane, Selection};
use crate::browse::slots::{count_kind, kind_count};
use crate::diagnostic::{Diagnostic, Severity};
use crate::text::{is_lit, owned};
use crate::walk_report::{path_extension, spec_path_extension};

verus! {

// ---------------------------------------------------------------------------
// Counts
// ---------------------------------------------------------------------------

/// The kinds the slice panel counts, in its order.
pub open spec fn counted_kinds() -> Seq<Seq<char>> {
    seq![
        "cell"@,
        "derived"@,
        "association"@,
        "event"@,
        "post_failure"@,
        "forbidden_state"@,
        "kill_test"@,
        "walk"@,
    ]
}

pub open spec fn counts_upto(items: Seq<BlockItem>, n: int) -> Seq<(Seq<char>, nat)>
    decreases n,
{
    if n <= 0 {
        seq![]
    } else {
        counts_upto(items, n - 1) + if kind_count(items, counted_kinds()[n - 1]) > 0 {
            seq![(counted_kinds()[n - 1], kind_count(items, counted_kinds()[n - 1]))]
        } else {
            seq![]
        }
    }
}

/// The number of declarations of each kind the slice has, for the kinds
/// it has, in the panel's order.
pub open spec fn spec_count_slots(s: SliceDecl) -> Seq<(Seq<char>, nat)> {
    counts_upto(s.items@, 8)
}

pub open spec fn counts_view(v: Seq<(&'static str, usize)>) -> Seq<(Seq<char>, nat)> {
    v.map_values(|p: (&'static str, usize)| (p.0@, p.1 as nat))
}

fn push_count(kind: &'static str, items: &Vec<BlockItem>, out: &mut Vec<(&'static str, usize)>)
    ensures
        counts_view(final(out)@) == counts_view(old(out)@) + if kind_count(items@, kind@) > 0 {
            seq![(kind@, kind_count(items@, kind@))]
        } else {
            seq![]
        },
{
    let n = count_kind(items, kind);
    let ghost before = out@;
    if n > 0 {
        out.push((kind, n));
        assert(counts_view(out@) =~= counts_view(before) + seq![(kind@, kind_count(items@, kind@))]);
    } else {
        assert(counts_view(out@) =~= counts_view(before));
    }
}

pub fn count_slots(slice: &SliceDecl) -> (r: Vec<(&'static str, usize)>)
    ensures
        counts_view(r@) == spec_count_slots(*slice),
{
    let items = &slice.items;
    let mut out: Vec<(&'static str, usize)> = Vec::new();
    assert(counts_view(out@) =~= counts_upto(items@, 0));
    push_count("cell", items, &mut out);
    assert(counts_view(out@) =~= counts_upto(items@, 1));
    push_count("derived", items, &mut out);
    assert(counts_view(out@) =~= counts_upto(items@, 2));
    push_count("association", items, &mut out);
    assert(counts_view(out@) =~= counts_upto(items@, 3));
    push_count("event", items, &mut out);
    assert(counts_view(out@) =~= counts_upto(items@, 4));
    push_count("post_failure", items, &mut out);
    assert(counts_view(out@) =~= counts_upto(items@, 5));
    push_count("forbidden_state", items, &mut out);
    assert(counts_view(out@) =~= counts_upto(items@, 6));
    push_count("kill_test", items, &mut out);
    assert(counts_view(out@) =~= counts_upto(items@, 7));
    push_count("walk", items, &mut out);
    assert(counts_view(out@) =~= counts_upto(items@, 8));
    out
}

/// Number of diagnostics of severity `s` over all files of the analysis.
pub open spec fn ws_severity_count(m: Seq<(String, Vec<Diagnostic>)>, s: Severity) -> nat
    decreases m.len(),
{
    if m.len() == 0 {
        0
    } else {
        ws_severity_count(m.drop_last(), s) + crate::walk_report::severity_count(m.last().1@, s)
    }
}

/// `n`, or `usize::MAX` when it does not fit.
pub open spec fn clamp_usize(n: nat) -> usize {
    if n <= usize::MAX {
        n as usize
    } else {
        usize::MAX
    }
}

fn add_clamped(a: usize, b: usize) -> (r: usize)
    ensures
        r == clamp_usize((a + b) as nat),
{
    if a > usize::MAX - b {
        usize::MAX
    } else {
        a + b
    }
}

/// Errors, warnings and infos over all files (each at most `usize::MAX`).
pub fn count_diagnostics(analysis: &WorkingSetAnalysis) -> (r: (usize, usize, usize))
    ensures
        r.0 == clamp_usize(ws_severity_count(analysis.by_file@, Severity::Error)),
        r.1 == clamp_usize(ws_severity_count(analysis.by_file@, Severity::Warning)),
        r.2 == clamp_usize(ws_severity_count(analysis.by_file@, Severity::Info)),
{
    let m = &analysis.by_file;
    let mut e: usize = 0;
    let mut w: usize = 0;
    let mut n: usize = 0;
    let mut j: usize = 0;
    while j < m.len()
        invariant
            j <= m@.len(),
            e == clamp_usize(ws_severity_count(m@.subrange(0, j as int), Severity::Error)),
            w == clamp_usize(ws_severity_count(m@.subrange(0, j as int), Severity::Warning)),
            n == clamp_usize(ws_severity_count(m@.subrange(0, j as int), Severity::Info)),
        decreases m@.len() - j,
    {
        assert(m@.subrange(0, j as int + 1).drop_last() =~= m@.subrange(0, j as int));
        let c = crate::walk_report::severity_counts(&m[j].1);
        e = add_clamped(e, c.0);
        w = add_clamped(w, c.1);
        n = add_clamped(n, c.2);
        j = j + 1;
    }
    assert(m@.subrange(0, m@.len() as int) =~= m@);
    (e, w, n)
}

/// Errors sort first, then warnings, then infos.
pub open spec fn spec_severity_rank(s: Severity) -> u8 {
    match s {
        Severity::Error => 0,
        Severity::Warning => 1,
        Severity::Info => 2,
    }
}

pub fn severity_rank(s: Severity) -> (r: u8)
    ensures
        r == spec_severity_rank(s),
{
    match s {
        Severity::Error => 0,
        Severity::Warning => 1,
        Severity::Info => 2,
    }
}

// ---------------------------------------------------------------------------
// Line and column by characters
// ---------------------------------------------------------------------------

/// The number of UTF-8 bytes of `c`.
pub open spec fn utf8_len(c: char) -> nat {
    if (c as u32) < 0x80 {
        1
    } else if (c as u32) < 0x800 {
        2
    } else if (c as u32) < 0x10000 {
        3
    } else {
        4
    }
}

/// Walking the characters `cs` while fewer than `off` bytes were passed:
/// each newline starts a new line at column 1, any other character moves
/// one column on.
pub open spec fn lc_walk(cs: Seq<char>, off: nat, count: nat, line: nat, col: nat) -> (nat, nat)
    decreases cs.len(),
{
    if cs.len() == 0 || count >= off {
        (line, col)
    } else if cs[0] == '\n' {
        lc_walk(cs.drop_first(), off, count + utf8_len(cs[0]), line + 1, 1)
    } else {
        lc_walk(cs.drop_first(), off, count + utf8_len(cs[0]), line, col + 1)
    }
}

/// The 1-based line and column, counted in characters, reached at byte
/// offset `off` of the text `cs`.
pub open spec fn spec_char_line_col(cs: Seq<char>, off: nat) -> (nat, nat) {
    lc_walk(cs, off, 0, 1, 1)
}

proof fn lemma_lc_walk_bound(cs: Seq<char>, off: nat, count: nat, line: nat, col: nat)
    ensures
        lc_walk(cs, off, count, line, col).0 <= line + cs.len(),
        lc_walk(cs, off, count, line, col).1 <= col + cs.len(),
    decreases cs.len(),
{
    if cs.len() > 0 && count < off {
        if cs[0] == '\n' {
            lemma_lc_walk_bound(cs.drop_first(), off, count + utf8_len(cs[0]), line + 1, 1);
        } else {
            lemma_lc_walk_bound(cs.drop_first(), off, count + utf8_len(cs[0]), line, col + 1);
        }
    }
}

fn char_utf8_len(c: char) -> (n: u64)
    ensures
        n == utf8_len(c),
{
    let v = c as u32;
    if v < 0x80 {
        1
    } else if v < 0x800 {
        2
    } else if v < 0x10000 {
        3
    } else {
        4
    }
}

/// The line and column of byte offset `off` of `source`, counting
/// characters.
pub fn char_line_col(source: &str, off: usize) -> (r: (u32, u32))
    requires
        source@.len() + 2 < u32::MAX,
    ensures
        r.0 == spec_char_line_col(source@, off as nat).0,
        r.1 == spec_char_line_col(source@, off as nat).1,
{
    let cs = crate::text::chars_of(source);
    let mut line: u32 = 1;
    let mut col: u32 = 1;
    let mut count: u64 = 0;
    let mut i: usize = 0;
    proof {
        assert(cs@.subrange(0, cs@.len() as int) =~= cs@);
    }
    while i < cs.len()
        invariant
            i <= cs@.len(),
            cs@ == source@,
            cs@.len() + 2 < u32::MAX,
            count <= 4 * i,
            line <= 1 + i,
            col <= 1 + i,
            lc_walk(cs@, off as nat, 0, 1, 1) == lc_walk(
                cs@.subrange(i as int, cs@.len() as int),
                off as nat,
                count as nat,
                line as nat,
                col as nat,
            ),
        decreases cs@.len() - i,
    {
        let ghost rest = cs@.subrange(i as int, cs@.len() as int);
        assert(rest[0] == cs@[i as int]);
        assert(rest.drop_first() =~= cs@.subrange(i as int + 1, cs@.len() as int));
        if count >= off as u64 {
            proof {
                lemma_lc_walk_bound(rest, off as nat, count as nat, line as nat, col as nat);
            }
            return (line, col);
        }
        let c = cs[i];
        count = count + char_utf8_len(c);
        if c == '\n' {
            line = line + 1;
            col = 1;
        } else {
            col = col + 1;
        }
        i = i + 1;
    }
    (line, col)
}

// ---------------------------------------------------------------------------
// Diagnostic rows
// ---------------------------------------------------------------------------

/// One row of the diagnostics pane.
#[derive(Clone, Debug)]
pub struct DiagRow {
    pub severity: Severity,
    pub code: String,
    pub message: String,
    pub file: String,
    pub line: u32,
    pub col: u32,
}

/// `a` sorts before `b`: by severity, errors first, then by file in path
/// order, then by line.
pub open spec fn row_before(a: DiagRow, b: DiagRow) -> bool {
    let ra = spec_severity_rank(a.severity);
    let rb = spec_severity_rank(b.severity);
    ra < rb || (ra == rb && (spec_path_before(a.file@, b.file@) || (!spec_path_before(a.file@, b.file@)
        && !spec_path_before(b.file@, a.file@) && a.line < b.line)))
}

/// `x` placed into `s` after every row it does not sort before.
pub open spec fn insert_sorted(s: Seq<DiagRow>, x: DiagRow) -> Seq<DiagRow>
    decreases s.len(),
{
    if s.len() == 0 {
        seq![x]
    } else if row_before(x, s.last()) {
        insert_sorted(s.drop_last(), x).push(s.last())
    } else {
        s.push(x)
    }
}

/// `s` in order, rows that sort alike kept in their order.
pub open spec fn sorted_rows(s: Seq<DiagRow>) -> Seq<DiagRow>
    decreases s.len(),
{
    if s.len() == 0 {
        seq![]
    } else {
        insert_sorted(sorted_rows(s.drop_last()), s.last())
    }
}

fn before(a: &DiagRow, b: &DiagRow) -> (r: bool)
    ensures
        r == row_before(*a, *b),
{
    let ra = severity_rank(a.severity);
    let rb = severity_rank(b.severity);
    if ra < rb {
        return true;
    }
    if ra != rb {
        return false;
    }
    if path_before(a.file.as_str(), b.file.as_str()) {
        return true;
    }
    !path_before(b.file.as_str(), a.file.as_str()) && a.line < b.line
}

proof fn lemma_insert_split(s: Seq<DiagRow>, x: DiagRow, k: int)
    requires
        0 <= k <= s.len(),
        forall|j: int| k <= j < s.len() ==> row_before(x, #[trigger] s[j]),
    ensures
        insert_sorted(s, x) == insert_sorted(s.subrange(0, k), x) + s.subrange(k, s.len() as int),
    decreases s.len() - k,
{
    if k < s.len() {
        assert(row_before(x, s.last()));
        assert(s.drop_last().subrange(0, k) =~= s.subrange(0, k));
        lemma_insert_split(s.drop_last(), x, k);
        assert(s.subrange(k, s.len() as int) =~= s.drop_last().subrange(k, s.len() - 1).push(s.last()));
    } else {
        assert(s.subrange(0, k) =~= s);
    }
}

fn insert_row(out: &mut Vec<DiagRow>, x: DiagRow)
    ensures
        final(out)@ == insert_sorted(old(out)@, x),
{
    let mut k: usize = out.len();
    while k > 0 && before(&x, &out[k - 1])
        invariant
            k <= out@.len(),
            forall|j: int| k <= j < out@.len() ==> row_before(x, #[trigger] out@[j]),
        decreases k,
    {
        k = k - 1;
    }
    proof {
        lemma_insert_split(out@, x, k as int);
        if k > 0 {
            assert(out@.subrange(0, k as int).drop_last() =~= out@.subrange(0, k as int - 1));
        }
    }
    let ghost before_insert = out@;
    out.insert(k, x);
    assert(out@ =~= out@.subrange(0, k as int) + seq![x] + before_insert.subrange(k as int, before_insert.len() as int));
    assert(out@ =~= insert_sorted(before_insert.subrange(0, k as int), x) + before_insert.subrange(
        k as int,
        before_insert.len() as int,
    ));
}

/// The rows in order: errors first, then warnings, then infos; within a
/// severity by file, then by line; rows that sort alike keep their order.
pub fn sort_rows(rows: Vec<DiagRow>) -> (r: Vec<DiagRow>)
    ensures
        r@ == sorted_rows(rows@),
{
    let mut out: Vec<DiagRow> = Vec::new();
    let mut i: usize = 0;
    while i < rows.len()
        invariant
            i <= rows@.len(),
            out@ == sorted_rows(rows@.subrange(0, i as int)),
        decreases rows@.len() - i,
    {
        assert(rows@.subrange(0, i as int + 1).drop_last() =~= rows@.subrange(0, i as int));
        let x = rows[i].clone_row();
        insert_row(&mut out, x);
        i = i + 1;
    }
    assert(rows@.subrange(0, rows@.len() as int) =~= rows@);
    out
}

impl DiagRow {
    pub fn clone_row(&self) -> (r: DiagRow)
        ensures
            r == *self,
    {
        DiagRow {
            severity: self.severity,
            code: self.code.clone(),
            message: self.message.clone(),
            file: self.file.clone(),
            line: self.line,
            col: self.col,
        }
    }
}

/// The row of diagnostic `d` of the file at `path` whose text, as read
/// again, is `source`: at line and column 0 when it could not be read.
pub open spec fn diag_row_of(d: Diagnostic, path: Seq<char>, source: Option<String>, r: DiagRow) -> bool {
    &&& r.severity == d.severity
    &&& r.code@ == d.code@
    &&& r.message == d.message
    &&& r.file@ == path
    &&& match source {
        Some(s) => r.line == spec_char_line_col(s@, d.span.start as nat).0 && r.col == spec_char_line_col(
            s@,
            d.span.start as nat,
        ).1,
        None => r.line == 0 && r.col == 0,
    }
}

/// The unsorted rows of the entries `m`, each diagnostic placed in the
/// matching text of `sources`.
pub open spec fn raw_rows_ok(
    rows: Seq<DiagRow>,
    m: Seq<(String, Vec<Diagnostic>)>,
    sources: Seq<Option<String>>,
) -> bool
    decreases m.len(),
{
    if m.len() == 0 {
        rows.len() == 0
    } else {
        let last = m.last().1@;
        &&& rows.len() >= last.len()
        &&& raw_rows_ok(rows.subrange(0, rows.len() - last.len()), m.drop_last(), sources.drop_last())
        &&& forall|k: int|
            0 <= k < last.len() ==> diag_row_of(
                last[k],
                m.last().0@,
                sources.last(),
                #[trigger] rows[rows.len() - last.len() + k],
            )
    }
}

/// The texts of the analysis's files fit the line and column counters.
pub open spec fn sources_small(sources: Seq<Option<String>>) -> bool {
    forall|j: int| 0 <= j < sources.len() ==> (#[trigger] sources[j] matches Some(s) ==> s@.len() + 2 < u32::MAX)
}

/// The diagnostics pane: a row for the load error, if any, on the active
/// root, then one per diagnostic of each file with its line and column
/// in the file's text as read again (`sources`, in the analysis's order);
/// all of them sorted errors first, then by file and line.
pub fn diag_rows(
    analysis: &WorkingSetAnalysis,
    sources: &Vec<Option<String>>,
    load_error: &Option<String>,
    active_root: &str,
) -> (r: Vec<DiagRow>)
    requires
        sources@.len() == analysis.by_file@.len(),
        sources_small(sources@),
    ensures
        exists|head: Seq<DiagRow>, raw: Seq<DiagRow>|
            {
                &&& match load_error {
                    Some(e) => head.len() == 1 && head[0].severity == Severity::Error && head[0].code@
                        == "memspec/loader"@ && head[0].message == e && head[0].file@ == active_root@
                        && head[0].line == 0 && head[0].col == 0,
                    None => head.len() == 0,
                }
                &&& raw_rows_ok(raw, analysis.by_file@, sources@)
                &&& r@ == sorted_rows(head + raw)
            },
{
    let mut rows: Vec<DiagRow> = Vec::new();
    match load_error {
        Some(e) => {
            rows.push(
                DiagRow {
                    severity: Severity::Error,
                    code: owned("memspec/loader"),
                    message: e.clone(),
                    file: owned(active_root),
                    line: 0,
                    col: 0,
                },
            );
        },
        None => {},
    }
    let ghost head = rows@;
    let m = &analysis.by_file;
    let mut j: usize = 0;
    while j < m.len()
        invariant
            j <= m@.len(),
            sources@.len() == m@.len(),
            sources_small(sources@),
            rows@.len() >= head.len(),
            rows@.subrange(0, head.len() as int) == head,
            raw_rows_ok(
                rows@.subrange(head.len() as int, rows@.len() as int),
                m@.subrange(0, j as int),
                sources@.subrange(0, j as int),
            ),
        decreases m@.len() - j,
    {
        let ghost before = rows@;
        let path = &m[j].0;
        let ds = &m[j].1;
        let mut k: usize = 0;
        while k < ds.len()
            invariant
                k <= ds@.len(),
                j < m@.len(),
                sources@.len() == m@.len(),
                sources_small(sources@),
                ds@ == m@[j as int].1@,
                rows@.len() == before.len() + k,
                rows@.subrange(0, before.len() as int) == before,
                forall|q: int|
                    0 <= q < k ==> diag_row_of(ds@[q], path@, sources@[j as int], #[trigger] rows@[before.len() + q]),
            decreases ds@.len() - k,
        {
            let d = &ds[k];
            let (line, col) = match &sources[j] {
                Some(s) => {
                    assert(sources@[j as int] matches Some(t) ==> t@.len() + 2 < u32::MAX);
                    char_line_col(s.as_str(), d.span.start)
                },
                None => (0u32, 0u32),
            };
            rows.push(
                DiagRow {
                    severity: d.severity,
                    code: owned(d.code),
                    message: d.message.clone(),
                    file: path.clone(),
                    line,
                    col,
                },
            );
            assert(rows@.subrange(0, before.len() as int) =~= before);
            k = k + 1;
        }
        proof {
            let tail = rows@.subrange(head.len() as int, rows@.len() as int);
            let ms = m@.subrange(0, j as int + 1);
            let ss = sources@.subrange(0, j as int + 1);
            assert(ms.drop_last() =~= m@.subrange(0, j as int));
            assert(ss.drop_last() =~= sources@.subrange(0, j as int));
            assert(ms.last() == m@[j as int]);
            assert(ss.last() == sources@[j as int]);
            assert(tail.subrange(0, tail.len() - ds@.len()) =~= before.subrange(head.len() as int, before.len() as int));
            assert(rows@.subrange(0, head.len() as int) =~= head);
            assert forall|q: int| 0 <= q < ds@.len() implies diag_row_of(
                ms.last().1@[q],
                ms.last().0@,
                ss.last(),
                #[trigger] tail[tail.len() - ms.last().1@.len() + q],
            ) by {
                assert(tail[tail.len() - ds@.len() + q] == rows@[before.len() + q]);
            }
        }
        j = j + 1;
    }
    assert(m@.subrange(0, m@.len() as int) =~= m@);
    assert(sources@.subrange(0, sources@.len() as int) =~= sources@);
    assert(rows@ =~= head + rows@.subrange(head.len() as int, rows@.len() as int));
    sort_rows(rows)
}

// ---------------------------------------------------------------------------
// Discovered files
// ---------------------------------------------------------------------------

/// A path with the `.memspec` extension.
pub fn has_memspec_extension(path: &str) -> (r: bool)
    ensures
        r == (spec_path_extension(path@) == "memspec"@),
{
    let ext = path_extension(path);
    is_lit(&ext, "memspec")
}

/// `x` placed into `s` after every path it does not sort before.
pub open spec fn insert_path(s: Seq<Seq<char>>, x: Seq<char>) -> Seq<Seq<char>>
    decreases s.len(),
{
    if s.len() == 0 {
        seq![x]
    } else if spec_path_before(x, s.last()) {
        insert_path(s.drop_last(), x).push(s.last())
    } else {
        s.push(x)
    }
}

/// `s` in path order, paths that sort alike kept in their order.
pub open spec fn sorted_paths(s: Seq<Seq<char>>) -> Seq<Seq<char>>
    decreases s.len(),
{
    if s.len() == 0 {
        seq![]
    } else {
        insert_path(sorted_paths(s.drop_last()), s.last())
    }
}

pub open spec fn strings_view(v: Seq<String>) -> Seq<Seq<char>> {
    v.map_values(|s: String| s@)
}

proof fn lemma_insert_path_split(s: Seq<Seq<char>>, x: Seq<char>, k: int)
    requires
        0 <= k <= s.len(),
        forall|j: int| k <= j < s.len() ==> spec_path_before(x, #[trigger] s[j]),
    ensures
        insert_path(s, x) == insert_path(s.subrange(0, k), x) + s.subrange(k, s.len() as int),
    decreases s.len() - k,
{
    if k < s.len() {
        assert(spec_path_before(x, s.last()));
        assert(s.drop_last().subrange(0, k) =~= s.subrange(0, k));
        lemma_insert_path_split(s.drop_last(), x, k);
        assert(s.subrange(k, s.len() as int) =~= s.drop_last().subrange(k, s.len() - 1).push(s.last()));
    } else {
        assert(s.subrange(0, k) =~= s);
    }
}

fn sort_paths(v: &Vec<String>) -> (r: Vec<String>)
    ensures
        strings_view(r@) == sorted_paths(strings_view(v@)),
{
    let mut out: Vec<String> = Vec::new();
    let mut i: usize = 0;
    while i < v.len()
        invariant
            i <= v@.len(),
            strings_view(out@) == sorted_paths(strings_view(v@.subrange(0, i as int))),
        decreases v@.len() - i,
    {
        assert(strings_view(v@.subrange(0, i as int + 1)).drop_last() =~= strings_view(v@.subrange(0, i as int)));
        assert(strings_view(v@.subrange(0, i as int + 1)).last() == v@[i as int]@);
        let x = v[i].clone();
        let mut k: usize = out.len();
        while k > 0 && path_before(x.as_str(), out[k - 1].as_str())
            invariant
                k <= out@.len(),
                forall|j: int| k <= j < out@.len() ==> spec_path_before(x@, #[trigger] out@[j]@),
            decreases k,
        {
            k = k - 1;
        }
        let ghost sv = strings_view(out@);
        proof {
            assert forall|j: int| k <= j < sv.len() implies spec_path_before(x@, #[trigger] sv[j]) by {
                assert(sv[j] == out@[j]@);
            }
            lemma_insert_path_split(sv, x@, k as int);
            if k > 0 {
                assert(sv.subrange(0, k as int).drop_last() =~= sv.subrange(0, k as int - 1));
                assert(sv.subrange(0, k as int).last() == out@[k as int - 1]@);
            }
        }
        out.insert(k, x);
        assert(strings_view(out@) =~= sv.subrange(0, k as int) + seq![x@] + sv.subrange(k as int, sv.len() as int));
        assert(strings_view(out@) =~= insert_path(sv.subrange(0, k as int), x@) + sv.subrange(k as int, sv.len() as int));
        i = i + 1;
    }
    assert(v@.subrange(0, v@.len() as int) =~= v@);
    out
}

/// Some path of `v` names the same file as `p`.
pub open spec fn has_path(v: Seq<Seq<char>>, p: Seq<char>) -> bool {
    exists|i: int| 0 <= i < v.len() && spec_path_key(#[trigger] v[i]) == spec_path_key(p)
}

fn contains_path(v: &Vec<String>, p: &str) -> (r: bool)
    ensures
        r == has_path(strings_view(v@), p@),
{
    let mut i: usize = 0;
    while i < v.len()
        invariant
            i <= v@.len(),
            forall|j: int| 0 <= j < i ==> spec_path_key(#[trigger] v@[j]@) != spec_path_key(p@),
        decreases v@.len() - i,
    {
        if same_path(v[i].as_str(), p) {
            assert(strings_view(v@)[i as int] == v@[i as int]@);
            return true;
        }
        i = i + 1;
    }
    assert forall|j: int| 0 <= j < strings_view(v@).len() implies spec_path_key(#[trigger] strings_view(v@)[j])
        != spec_path_key(p@) by {
        assert(strings_view(v@)[j] == v@[j]@);
    }
    false
}

/// The files the viewer lists, and the one it opens first.
pub struct Siblings {
    pub discovered: Vec<String>,
    pub active_root: String,
}

/// The discovered list: the `.memspec` files `found` beside the
/// invocation, in path order, with the invoked file first when it is a
/// file not among them; the active root is the invoked file, or for a
/// directory the first file listed (the directory itself when none is).
pub open spec fn spec_siblings(invocation: Seq<char>, is_dir: bool, found: Seq<Seq<char>>) -> (Seq<Seq<char>>, Seq<char>) {
    let sorted = sorted_paths(found);
    let listed = if !is_dir && !has_path(sorted, invocation) {
        seq![invocation] + sorted
    } else {
        sorted
    };
    let active = if is_dir {
        if listed.len() > 0 {
            listed[0]
        } else {
            invocation
        }
    } else {
        invocation
    };
    (listed, active)
}

pub fn arrange_siblings(invocation: &str, is_dir: bool, found: &Vec<String>) -> (r: Siblings)
    ensures
        (strings_view(r.discovered@), r.active_root@) == spec_siblings(invocation@, is_dir, strings_view(found@)),
{
    let sorted = sort_paths(found);
    let mut listed = sorted;
    if !is_dir && !contains_path(&listed, invocation) {
        let ghost before = strings_view(listed@);
        listed.insert(0, owned(invocation));
        assert(strings_view(listed@) =~= seq![invocation@] + before);
    }
    let active = if is_dir {
        if listed.len() > 0 {
            listed[0].clone()
        } else {
            owned(invocation)
        }
    } else {
        owned(invocation)
    };
    proof {
        if is_dir && listed@.len() > 0 {
            assert(strings_view(listed@)[0] == listed@[0]@);
        }
    }
    Siblings { discovered: listed, active_root: active }
}

/// The index of the first path of `v` naming the same file as `p`.
pub open spec fn path_position(v: Seq<Seq<char>>, p: Seq<char>) -> Option<int>
    decreases v.len(),
{
    if v.len() == 0 {
        None
    } else if spec_path_key(v[0]) == spec_path_key(p) {
        Some(0)
    } else {
        match path_position(v.drop_first(), p) {
            Some(i) => Some(i + 1),
            None => None,
        }
    }
}

/// The viewer's first selection: the slices pane focused, on the active
/// root's row (the first row when it is not listed), nothing selected
/// elsewhere.
pub open spec fn spec_initial_selection(discovered: Seq<Seq<char>>, active_root: Seq<char>) -> Selection {
    Selection {
        focused: Pane::Slices,
        slices: if discovered.len() == 0 {
            None
        } else {
            match path_position(discovered, active_root) {
                Some(i) => Some(i as usize),
                None => Some(0),
            }
        },
        slots: None,
        diagnostics: None,
    }
}

pub fn initial_selection(discovered: &Vec<String>, active_root: &str) -> (s: Selection)
    ensures
        s == spec_initial_selection(strings_view(discovered@), active_root@),
{
    let ghost sv = strings_view(discovered@);
    let mut slices: Option<usize> = None;
    if discovered.len() > 0 {
        let mut i: usize = 0;
        assert(sv.subrange(0, sv.len() as int) =~= sv);
        while i < discovered.len()
            invariant_except_break
                slices is None,
            invariant
                i <= discovered@.len(),
                sv == strings_view(discovered@),
                path_position(sv, active_root@) == match path_position(sv.subrange(i as int, sv.len() as int), active_root@) {
                    Some(k) => Some(k + i),
                    None => None,
                },
            ensures
                match slices {
                    Some(k) => path_position(sv, active_root@) == Some(k as int),
                    None => path_position(sv, active_root@) is None,
                },
            decreases discovered@.len() - i,
        {
            let ghost rest = sv.subrange(i as int, sv.len() as int);
            assert(rest[0] == discovered@[i as int]@);
            assert(rest.drop_first() =~= sv.subrange(i as int + 1, sv.len() as int));
            if same_path(discovered[i].as_str(), active_root) {
                slices = Some(i);
                break;
            }
            assert(path_position(rest, active_root@) == match path_position(rest.drop_first(), active_root@) {
                Some(k) => Some(k + 1),
                None => None,
            });
            i = i + 1;
        }
        if slices.is_none() {
            slices = Some(0);
        }
    }
    Selection { focused: Pane::Slices, slices, slots: None, diagnostics: None }
}

} // verus!
