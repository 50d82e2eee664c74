//! The viewer's panels as styled lines: the detail of the selected slice,
//! slot or diagnostic, the graph neighbours of the selected slot, the
//! labels of its lists and its status line.

use vstd::prelude::*;

use crate::analysis::WorkingSetAnalysis;
use crate::analysis::loader::{LoadedFile, WorkingSet, same_path, spec_path_key};
use crate::analysis::query::{RefView, refs_to, refs_view, top_refs};
use crate::ast::{Import, SliceDecl};
use crate::browse::blocks::{block_lines, kv_line, kv_seg, section_line, section_seg, spec_block_lines, LinesView};
use crate::browse::edges::{
    collect_outbound, edges_view, event_step_from, find_event_step, find_named, find_step, items_edges,
    named_block_from, spec_find_step, Edge,
};
use crate::browse::keys::{Pane, Selection};
use crate::browse::rows::{count_slots, counts_view, spec_count_slots, DiagRow};
use crate::browse::slots::{SlotRow, SlotTarget};
use crate::browse::styled::{
    Segment, SegView, Tone, append_lines, lines_view, push_line, push_seg, repeat, repeat_str, segs_view, single_line,
};
use crate::diagnostic::{Diagnostic, Severity, spec_severity_name};
use crate::text::{decimal_text, owned, u64_text};
use crate::walk_report::report::{spec_walk_status, walk_status};

verus! {

// ---------------------------------------------------------------------------
// Paths
// ---------------------------------------------------------------------------

/// The stem of a path's file name (std `Path::file_stem`), when it has one
/// that is UTF-8.
pub uninterp spec fn spec_path_file_stem(p: Seq<char>) -> Option<Seq<char>>;

/// The stem of a path's file name (std `Path::file_stem`, then `to_str`).
/// Contract: the result is [`spec_path_file_stem`] of the path.
#[verifier::external_body]
pub(crate) fn path_file_stem(p: &str) -> (r: Option<String>)
    ensures
        match r {
            Some(s) => spec_path_file_stem(p@) == Some(s@),
            None => spec_path_file_stem(p@) is None,
        },
{
    std::path::Path::new(p).file_stem().and_then(|s| s.to_str()).map(|s| s.to_owned())
}

/// The first file of `files[i..]` at the same path as `p`.
pub open spec fn file_at_from(files: Seq<LoadedFile>, p: Seq<char>, i: int) -> Option<LoadedFile>
    decreases files.len() - i,
{
    if i < 0 || i >= files.len() {
        None
    } else if spec_path_key(files[i].path@) == spec_path_key(p) {
        Some(files[i])
    } else {
        file_at_from(files, p, i + 1)
    }
}

/// The loaded file at the same path as `p`.
pub fn file_at<'a>(ws: &'a WorkingSet, p: &str) -> (r: Option<&'a LoadedFile>)
    ensures
        match r {
            Some(f) => file_at_from(ws.files@, p@, 0) == Some(*f),
            None => file_at_from(ws.files@, p@, 0) is None,
        },
{
    let mut i: usize = 0;
    while i < ws.files.len()
        invariant
            i <= ws.files@.len(),
            file_at_from(ws.files@, p@, 0) == file_at_from(ws.files@, p@, i as int),
        decreases ws.files@.len() - i,
    {
        if same_path(ws.files[i].path.as_str(), p) {
            return Some(&ws.files[i]);
        }
        i = i + 1;
    }
    None
}

// ---------------------------------------------------------------------------
// Detail of a slice
// ---------------------------------------------------------------------------

pub open spec fn import_lines(s: Seq<Import>) -> LinesView
    decreases s.len(),
{
    if s.len() == 0 {
        seq![]
    } else {
        import_lines(s.drop_last()) + seq![
            seq![
                ("  · "@, Tone::Raw),
                (s.last().alias.name@, Tone::Key),
                (" → "@, Tone::Raw),
                (s.last().path@, Tone::Raw),
            ],
        ]
    }
}

pub open spec fn count_lines(s: Seq<(Seq<char>, nat)>) -> LinesView
    decreases s.len(),
{
    if s.len() == 0 {
        seq![]
    } else {
        count_lines(s.drop_last()) + seq![kv_seg(s.last().0, decimal_text(s.last().1))]
    }
}

/// The detail of the active file: its slice's name, its path, its imports
/// and its per-kind counts.
pub open spec fn spec_detail_for_slice(lf: Option<LoadedFile>) -> LinesView {
    match lf {
        None => seq![seq![("(no slice selected)"@, Tone::Raw)]],
        Some(f) => match f.file.slice {
            None => seq![seq![("(slice failed to parse)"@, Tone::Raw)]],
            Some(s) => seq![section_seg("slice"@), kv_seg("name"@, s.name.name@), kv_seg("path"@, f.path@)] + (if s.imports@.len()
                > 0 {
                seq![section_seg("imports"@)] + import_lines(s.imports@)
            } else {
                seq![]
            }) + seq![section_seg("counts"@)] + count_lines(spec_count_slots(s)),
        },
    }
}

pub fn detail_for_slice(lf: Option<&LoadedFile>) -> (r: Vec<Vec<Segment>>)
    ensures
        lines_view(r@) == spec_detail_for_slice(
            match lf {
                Some(f) => Some(*f),
                None => None,
            },
        ),
{
    let mut out: Vec<Vec<Segment>> = Vec::new();
    let f = match lf {
        None => {
            push_line(&mut out, single_line(owned("(no slice selected)"), Tone::Raw));
            assert(lines_view(out@) =~~= spec_detail_for_slice(None));
            return out;
        },
        Some(f) => f,
    };
    let s = match &f.file.slice {
        None => {
            push_line(&mut out, single_line(owned("(slice failed to parse)"), Tone::Raw));
            assert(lines_view(out@) =~~= spec_detail_for_slice(Some(*f)));
            return out;
        },
        Some(s) => s,
    };
    push_line(&mut out, section_line("slice"));
    push_line(&mut out, kv_line("name", s.name.name.as_str()));
    push_line(&mut out, kv_line("path", f.path.as_str()));
    let ghost head = lines_view(out@);
    if s.imports.len() > 0 {
        push_line(&mut out, section_line("imports"));
        let ghost mid = lines_view(out@);
        let mut i: usize = 0;
        while i < s.imports.len()
            invariant
                i <= s.imports@.len(),
                lines_view(out@) == mid + import_lines(s.imports@.subrange(0, i as int)),
            decreases s.imports@.len() - i,
        {
            assert(s.imports@.subrange(0, i as int + 1).drop_last() =~= s.imports@.subrange(0, i as int));
            let imp = &s.imports[i];
            let mut line: Vec<Segment> = Vec::new();
            push_seg(&mut line, owned("  · "), Tone::Raw);
            push_seg(&mut line, imp.alias.name.clone(), Tone::Key);
            push_seg(&mut line, owned(" → "), Tone::Raw);
            push_seg(&mut line, imp.path.clone(), Tone::Raw);
            push_line(&mut out, line);
            assert(lines_view(out@) =~~= mid + import_lines(s.imports@.subrange(0, i as int + 1)));
            i = i + 1;
        }
        assert(s.imports@.subrange(0, s.imports@.len() as int) =~= s.imports@);
    }
    let ghost before_counts = lines_view(out@);
    push_line(&mut out, section_line("counts"));
    let counts = count_slots(s);
    let ghost cs = counts_view(counts@);
    let ghost mid2 = lines_view(out@);
    let mut i: usize = 0;
    while i < counts.len()
        invariant
            i <= counts@.len(),
            cs == counts_view(counts@),
            lines_view(out@) == mid2 + count_lines(cs.subrange(0, i as int)),
        decreases counts@.len() - i,
    {
        assert(cs.subrange(0, i as int + 1).drop_last() =~= cs.subrange(0, i as int));
        assert(cs.subrange(0, i as int + 1).last() == (counts@[i as int].0@, counts@[i as int].1 as nat));
        let n = u64_text(counts[i].1 as u64);
        push_line(&mut out, kv_line(counts[i].0, n.as_str()));
        i = i + 1;
    }
    assert(cs.subrange(0, cs.len() as int) =~= cs);
    assert(lines_view(out@) =~~= spec_detail_for_slice(Some(*f)));
    out
}

// ---------------------------------------------------------------------------
// Detail of a slot
// ---------------------------------------------------------------------------

/// The selected row of `rows`, if the selection is within them.
pub open spec fn selected_row(sel: Option<usize>, rows: Seq<SlotRow>) -> Option<SlotRow> {
    match sel {
        Some(i) => if i < rows.len() {
            Some(rows[i as int])
        } else {
            None
        },
        None => None,
    }
}

/// The detail of the selected slot: the declaration, or the step of an
/// event under a heading naming both.
pub open spec fn spec_detail_for_slot(sel: Option<usize>, rows: Seq<SlotRow>, slice: Option<SliceDecl>) -> LinesView {
    match selected_row(sel, rows) {
        None => seq![seq![("(no slot selected)"@, Tone::Raw)]],
        Some(row) => match row.target {
            None => seq![seq![(row.label@, Tone::Raw)]],
            Some(t) => match slice {
                None => seq![seq![("(slice unavailable)"@, Tone::Raw)]],
                Some(s) => match t {
                    SlotTarget::Block { id } => match named_block_from(s.items@, id@, 0) {
                        Some(b) => spec_block_lines(b),
                        None => seq![seq![("(id `"@ + id@ + "` not found)"@, Tone::Raw)]],
                    },
                    SlotTarget::Step { event, step } => match event_step_from(s.items@, event@, step@, 0) {
                        Some(b) => seq![section_seg("event "@ + event@ + " → step "@ + step@)] + spec_block_lines(b),
                        None => seq![
                            seq![("(step `"@ + step@ + "` not found in `"@ + event@ + "`)"@, Tone::Raw)],
                        ],
                    },
                },
            },
        },
    }
}

fn row_at<'a>(sel: Option<usize>, rows: &'a Vec<SlotRow>) -> (r: Option<&'a SlotRow>)
    ensures
        match r {
            Some(row) => selected_row(sel, rows@) == Some(*row),
            None => selected_row(sel, rows@) is None,
        },
{
    match sel {
        Some(i) => if i < rows.len() {
            Some(&rows[i])
        } else {
            None
        },
        None => None,
    }
}

fn opt_slice(s: Option<&SliceDecl>) -> (r: Ghost<Option<SliceDecl>>)
    ensures
        r@ == match s {
            Some(x) => Some(*x),
            None => None,
        },
{
    Ghost(
        match s {
            Some(x) => Some(*x),
            None => None,
        },
    )
}

pub fn detail_for_slot(sel: Option<usize>, rows: &Vec<SlotRow>, slice: Option<&SliceDecl>) -> (r: Vec<Vec<Segment>>)
    ensures
        lines_view(r@) == spec_detail_for_slot(
            sel,
            rows@,
            match slice {
                Some(x) => Some(*x),
                None => None,
            },
        ),
{
    let ghost gs = match slice {
        Some(x) => Some(*x),
        None => None,
    };
    let mut out: Vec<Vec<Segment>> = Vec::new();
    let row = match row_at(sel, rows) {
        None => {
            push_line(&mut out, single_line(owned("(no slot selected)"), Tone::Raw));
            assert(lines_view(out@) =~~= spec_detail_for_slot(sel, rows@, gs));
            return out;
        },
        Some(row) => row,
    };
    let target = match &row.target {
        None => {
            push_line(&mut out, single_line(row.label.clone(), Tone::Raw));
            assert(lines_view(out@) =~~= spec_detail_for_slot(sel, rows@, gs));
            return out;
        },
        Some(t) => t,
    };
    let s = match slice {
        None => {
            push_line(&mut out, single_line(owned("(slice unavailable)"), Tone::Raw));
            assert(lines_view(out@) =~~= spec_detail_for_slot(sel, rows@, gs));
            return out;
        },
        Some(s) => s,
    };
    match target {
        SlotTarget::Block { id } => match find_named(&s.items, id.as_str()) {
            Some(b) => {
                let lines = block_lines(b);
                append_lines(&mut out, lines);
            },
            None => {
                let mut t = owned("(id `");
                t.append(id.as_str());
                t.append("` not found)");
                push_line(&mut out, single_line(t, Tone::Raw));
            },
        },
        SlotTarget::Step { event, step } => match find_event_step(&s.items, event.as_str(), step.as_str()) {
            Some(b) => {
                let mut t = owned("event ");
                t.append(event.as_str());
                t.append(" → step ");
                t.append(step.as_str());
                push_line(&mut out, section_line(t.as_str()));
                let lines = block_lines(b);
                append_lines(&mut out, lines);
            },
            None => {
                let mut t = owned("(step `");
                t.append(step.as_str());
                t.append("` not found in `");
                t.append(event.as_str());
                t.append("`)");
                push_line(&mut out, single_line(t, Tone::Raw));
            },
        },
    }
    assert(lines_view(out@) =~~= spec_detail_for_slot(sel, rows@, gs));
    out
}

// ---------------------------------------------------------------------------
// Detail of a diagnostic
// ---------------------------------------------------------------------------

/// The selected diagnostic row, if the selection is within them.
pub open spec fn selected_diag(sel: Option<usize>, rows: Seq<DiagRow>) -> Option<DiagRow> {
    match sel {
        Some(i) => if i < rows.len() {
            Some(rows[i as int])
        } else {
            None
        },
        None => None,
    }
}

/// The diagnostics the analysis holds for the first entry at the same path
/// as `p`.
pub open spec fn entry_diags_from(m: Seq<(String, Vec<Diagnostic>)>, p: Seq<char>, j: int) -> Option<Seq<Diagnostic>>
    decreases m.len() - j,
{
    if j < 0 || j >= m.len() {
        None
    } else if spec_path_key(m[j].0@) == spec_path_key(p) {
        Some(m[j].1@)
    } else {
        entry_diags_from(m, p, j + 1)
    }
}

/// The first diagnostic of `ds[k..]` with that code and message.
pub open spec fn same_diag_from(ds: Seq<Diagnostic>, code: Seq<char>, message: Seq<char>, k: int) -> Option<Diagnostic>
    decreases ds.len() - k,
{
    if k < 0 || k >= ds.len() {
        None
    } else if ds[k].code@ == code && ds[k].message@ == message {
        Some(ds[k])
    } else {
        same_diag_from(ds, code, message, k + 1)
    }
}

/// The hint of the analysis's diagnostic behind the row.
pub open spec fn row_hint(a: Option<WorkingSetAnalysis>, d: DiagRow) -> Option<Seq<char>> {
    match a {
        None => None,
        Some(a) => match entry_diags_from(a.by_file@, d.file@, 0) {
            None => None,
            Some(ds) => match same_diag_from(ds, d.code@, d.message@, 0) {
                Some(x) => match x.hint {
                    Some(h) => Some(h@),
                    None => None,
                },
                None => None,
            },
        },
    }
}

/// The detail of the selected diagnostic: severity and code, location,
/// message, and its hint when it has one.
pub open spec fn spec_detail_for_diag(sel: Option<usize>, rows: Seq<DiagRow>, a: Option<WorkingSetAnalysis>) -> LinesView {
    match selected_diag(sel, rows) {
        None => seq![seq![("(no diagnostic selected)"@, Tone::Raw)]],
        Some(d) => seq![
            section_seg(spec_severity_name(d.severity) + " "@ + d.code@),
            kv_seg(
                "location"@,
                d.file@ + ":"@ + decimal_text(d.line as nat) + ":"@ + decimal_text(d.col as nat),
            ),
            seq![(""@, Tone::Raw)],
            seq![(d.message@, Tone::Raw)],
        ] + match row_hint(a, d) {
            Some(h) => seq![seq![(""@, Tone::Raw)], seq![("hint: "@, Tone::Key), (h, Tone::Raw)]],
            None => seq![],
        },
    }
}

fn hint_for(a: &WorkingSetAnalysis, d: &DiagRow) -> (r: Option<String>)
    ensures
        match r {
            Some(h) => row_hint(Some(*a), *d) == Some(h@),
            None => row_hint(Some(*a), *d) is None,
        },
{
    let m = &a.by_file;
    let mut j: usize = 0;
    while j < m.len()
        invariant
            j <= m@.len(),
            m@ == a.by_file@,
            entry_diags_from(m@, d.file@, 0) == entry_diags_from(m@, d.file@, j as int),
        decreases m@.len() - j,
    {
        if same_path(m[j].0.as_str(), d.file.as_str()) {
            let ds = &m[j].1;
            assert(entry_diags_from(m@, d.file@, 0) == Some(ds@));
            let mut k: usize = 0;
            while k < ds.len()
                invariant
                    k <= ds@.len(),
                    j < m@.len(),
                    entry_diags_from(m@, d.file@, 0) == Some(ds@),
                    m@ == a.by_file@,
                    same_diag_from(ds@, d.code@, d.message@, 0) == same_diag_from(ds@, d.code@, d.message@, k as int),
                decreases ds@.len() - k,
            {
                if crate::text::str_eq(ds[k].code, d.code.as_str()) && crate::text::str_eq(
                    ds[k].message.as_str(),
                    d.message.as_str(),
                ) {
                    return match &ds[k].hint {
                        Some(h) => Some(h.clone()),
                        None => None,
                    };
                }
                k = k + 1;
            }
            return None;
        }
        j = j + 1;
    }
    None
}

pub fn detail_for_diag(sel: Option<usize>, rows: &Vec<DiagRow>, a: Option<&WorkingSetAnalysis>) -> (r: Vec<
    Vec<Segment>,
>)
    ensures
        lines_view(r@) == spec_detail_for_diag(
            sel,
            rows@,
            match a {
                Some(x) => Some(*x),
                None => None,
            },
        ),
{
    let ghost ga = match a {
        Some(x) => Some(*x),
        None => None,
    };
    let mut out: Vec<Vec<Segment>> = Vec::new();
    let d = match sel {
        Some(i) => if i < rows.len() {
            &rows[i]
        } else {
            push_line(&mut out, single_line(owned("(no diagnostic selected)"), Tone::Raw));
            assert(lines_view(out@) =~~= spec_detail_for_diag(sel, rows@, ga));
            return out;
        },
        None => {
            push_line(&mut out, single_line(owned("(no diagnostic selected)"), Tone::Raw));
            assert(lines_view(out@) =~~= spec_detail_for_diag(sel, rows@, ga));
            return out;
        },
    };
    let mut head = owned(d.severity.as_str());
    head.append(" ");
    head.append(d.code.as_str());
    push_line(&mut out, section_line(head.as_str()));
    let mut loc = d.file.clone();
    loc.append(":");
    let l = u64_text(d.line as u64);
    loc.append(l.as_str());
    loc.append(":");
    let c = u64_text(d.col as u64);
    loc.append(c.as_str());
    push_line(&mut out, kv_line("location", loc.as_str()));
    push_line(&mut out, single_line(owned(""), Tone::Raw));
    push_line(&mut out, single_line(d.message.clone(), Tone::Raw));
    let hint = match a {
        Some(an) => hint_for(an, d),
        None => None,
    };
    match hint {
        Some(h) => {
            push_line(&mut out, single_line(owned(""), Tone::Raw));
            let mut line: Vec<Segment> = Vec::new();
            push_seg(&mut line, owned("hint: "), Tone::Key);
            push_seg(&mut line, h, Tone::Raw);
            push_line(&mut out, line);
        },
        None => {},
    }
    assert(lines_view(out@) =~~= spec_detail_for_diag(sel, rows@, ga));
    out
}

// ---------------------------------------------------------------------------
// Graph of a slot
// ---------------------------------------------------------------------------

pub open spec fn edge_lines(es: Seq<Edge>) -> LinesView
    decreases es.len(),
{
    if es.len() == 0 {
        seq![]
    } else {
        edge_lines(es.drop_last()) + seq![
            seq![
                ("    · via "@, Tone::Raw),
                (es.last().0, Tone::EdgeField),
                (" → "@, Tone::Raw),
                (es.last().1, Tone::EdgeTarget),
            ],
        ]
    }
}

pub open spec fn ref_lines(rs: Seq<RefView>) -> LinesView
    decreases rs.len(),
{
    if rs.len() == 0 {
        seq![]
    } else {
        ref_lines(rs.drop_last()) + seq![
            seq![
                ("    · "@, Tone::Raw),
                (rs.last().0, Tone::EdgeSource),
                ("  via "@, Tone::Raw),
                (rs.last().1, Tone::EdgeField),
            ],
        ]
    }
}

/// The name a slot target is shown under: the declaration's, or the
/// step's.
pub open spec fn target_id(t: SlotTarget) -> Seq<char> {
    match t {
        SlotTarget::Block { id } => id@,
        SlotTarget::Step { step, .. } => step@,
    }
}

/// The block a slot target names in the slice.
pub open spec fn target_block(t: SlotTarget, s: SliceDecl) -> Option<crate::ast::BlockDecl> {
    match t {
        SlotTarget::Block { id } => named_block_from(s.items@, id@, 0),
        SlotTarget::Step { event, step } => spec_find_step(s.items@, event@, step@),
    }
}

/// The graph of the selected slot: its name and kind, the names it points
/// at with the field each goes through, and the sites that point at it.
pub open spec fn spec_graph_for_slot(sel: Option<usize>, rows: Seq<SlotRow>, lf: Option<LoadedFile>) -> LinesView {
    match sel {
        None => seq![seq![("(no slot selected)"@, Tone::Raw)]],
        Some(_) => match selected_row(sel, rows) {
            None => seq![],
            Some(row) => match row.target {
                None => seq![seq![(row.label@, Tone::Raw)]],
                Some(t) => match lf {
                    None => seq![],
                    Some(f) => match f.file.slice {
                        None => seq![],
                        Some(s) => {
                            let id = target_id(t);
                            let b = target_block(t, s);
                            let es = match b {
                                Some(b) => items_edges(b.items@),
                                None => seq![],
                            };
                            let rs = top_refs(s.items@, id);
                            seq![
                                seq![
                                    (id, Tone::NodeId),
                                    ("  ("@, Tone::Raw),
                                    (match b {
                                        Some(b) => b.kind.name@,
                                        None => "?"@,
                                    }, Tone::NodeKind),
                                    (")"@, Tone::Raw),
                                ],
                                seq![(""@, Tone::Raw)],
                                seq![("  outgoing →"@, Tone::Outgoing)],
                            ] + (if es.len() == 0 {
                                seq![seq![("    (no outgoing references)"@, Tone::Muted)]]
                            } else {
                                edge_lines(es)
                            }) + seq![seq![(""@, Tone::Raw)], seq![("  ← incoming"@, Tone::Incoming)]] + (if rs.len()
                                == 0 {
                                seq![seq![("    (no references)"@, Tone::Muted)]]
                            } else {
                                ref_lines(rs)
                            })
                        },
                    },
                },
            },
        },
    }
}

pub fn graph_for_slot(sel: Option<usize>, rows: &Vec<SlotRow>, lf: Option<&LoadedFile>) -> (r: Vec<Vec<Segment>>)
    ensures
        lines_view(r@) == spec_graph_for_slot(
            sel,
            rows@,
            match lf {
                Some(x) => Some(*x),
                None => None,
            },
        ),
{
    let ghost gl = match lf {
        Some(x) => Some(*x),
        None => None,
    };
    let mut out: Vec<Vec<Segment>> = Vec::new();
    if sel.is_none() {
        push_line(&mut out, single_line(owned("(no slot selected)"), Tone::Raw));
        assert(lines_view(out@) =~~= spec_graph_for_slot(sel, rows@, gl));
        return out;
    }
    let row = match row_at(sel, rows) {
        None => {
            assert(lines_view(out@) =~~= spec_graph_for_slot(sel, rows@, gl));
            return out;
        },
        Some(row) => row,
    };
    let target = match &row.target {
        None => {
            push_line(&mut out, single_line(row.label.clone(), Tone::Raw));
            assert(lines_view(out@) =~~= spec_graph_for_slot(sel, rows@, gl));
            return out;
        },
        Some(t) => t,
    };
    let f = match lf {
        None => {
            assert(lines_view(out@) =~~= spec_graph_for_slot(sel, rows@, gl));
            return out;
        },
        Some(f) => f,
    };
    let s = match &f.file.slice {
        None => {
            assert(lines_view(out@) =~~= spec_graph_for_slot(sel, rows@, gl));
            return out;
        },
        Some(s) => s,
    };
    let id: &str = match target {
        SlotTarget::Block { id } => id.as_str(),
        SlotTarget::Step { step, .. } => step.as_str(),
    };
    let b = match target {
        SlotTarget::Block { id } => find_named(&s.items, id.as_str()),
        SlotTarget::Step { event, step } => find_step(&s.items, event.as_str(), step.as_str()),
    };
    let mut head: Vec<Segment> = Vec::new();
    push_seg(&mut head, owned(id), Tone::NodeId);
    push_seg(&mut head, owned("  ("), Tone::Raw);
    push_seg(
        &mut head,
        match b {
            Some(b) => b.kind.name.clone(),
            None => owned("?"),
        },
        Tone::NodeKind,
    );
    push_seg(&mut head, owned(")"), Tone::Raw);
    push_line(&mut out, head);
    push_line(&mut out, single_line(owned(""), Tone::Raw));
    push_line(&mut out, single_line(owned("  outgoing →"), Tone::Outgoing));
    let edges = match b {
        Some(b) => collect_outbound(b),
        None => Vec::new(),
    };
    let ghost es = edges_view(edges@);
    if edges.len() == 0 {
        push_line(&mut out, single_line(owned("    (no outgoing references)"), Tone::Muted));
    } else {
        let ghost mid = lines_view(out@);
        let mut i: usize = 0;
        while i < edges.len()
            invariant
                i <= edges@.len(),
                es == edges_view(edges@),
                lines_view(out@) == mid + edge_lines(es.subrange(0, i as int)),
            decreases edges@.len() - i,
        {
            assert(es.subrange(0, i as int + 1).drop_last() =~= es.subrange(0, i as int));
            assert(es.subrange(0, i as int + 1).last() == (edges@[i as int].0@, edges@[i as int].1@));
            let mut line: Vec<Segment> = Vec::new();
            push_seg(&mut line, owned("    · via "), Tone::Raw);
            push_seg(&mut line, edges[i].0.clone(), Tone::EdgeField);
            push_seg(&mut line, owned(" → "), Tone::Raw);
            push_seg(&mut line, edges[i].1.clone(), Tone::EdgeTarget);
            push_line(&mut out, line);
            assert(lines_view(out@) =~~= mid + edge_lines(es.subrange(0, i as int + 1)));
            i = i + 1;
        }
        assert(es.subrange(0, es.len() as int) =~= es);
    }
    push_line(&mut out, single_line(owned(""), Tone::Raw));
    push_line(&mut out, single_line(owned("  ← incoming"), Tone::Incoming));
    let report = refs_to(&f.file, id);
    let ghost rs = refs_view(report.references@);
    if report.references.len() == 0 {
        push_line(&mut out, single_line(owned("    (no references)"), Tone::Muted));
    } else {
        let ghost mid = lines_view(out@);
        let mut i: usize = 0;
        while i < report.references.len()
            invariant
                i <= report.references@.len(),
                rs == refs_view(report.references@),
                lines_view(out@) == mid + ref_lines(rs.subrange(0, i as int)),
            decreases report.references@.len() - i,
        {
            assert(rs.subrange(0, i as int + 1).drop_last() =~= rs.subrange(0, i as int));
            let r = &report.references[i];
            assert(rs.subrange(0, i as int + 1).last() == (r.from@, r.field@, r.span));
            let mut line: Vec<Segment> = Vec::new();
            push_seg(&mut line, owned("    · "), Tone::Raw);
            push_seg(&mut line, r.from.clone(), Tone::EdgeSource);
            push_seg(&mut line, owned("  via "), Tone::Raw);
            push_seg(&mut line, r.field.clone(), Tone::EdgeField);
            push_line(&mut out, line);
            assert(lines_view(out@) =~~= mid + ref_lines(rs.subrange(0, i as int + 1)));
            i = i + 1;
        }
        assert(rs.subrange(0, rs.len() as int) =~= rs);
    }
    assert(lines_view(out@) =~~= spec_graph_for_slot(sel, rows@, gl));
    out
}

} // verus!
