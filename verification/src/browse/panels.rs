//! The labels of the viewer's lists, its panel titles and status line, and
//! which content each panel shows for the focused pane.

use vstd::prelude::*;

use crate::analysis::WorkingSetAnalysis;
use crate::analysis::loader::{LoadedFile, WorkingSet, same_path, spec_path_key};
use crate::browse::blocks::LinesView;
use crate::browse::detail::{
    detail_for_diag, detail_for_slice, detail_for_slot, file_at, file_at_from, graph_for_slot, path_file_stem,
    spec_detail_for_diag, spec_detail_for_slice, spec_detail_for_slot, spec_graph_for_slot, spec_path_file_stem,
};
use crate::browse::keys::{Pane, Selection};
use crate::browse::rows::DiagRow;
use crate::browse::slots::SlotRow;
use crate::browse::styled::{
    Segment, SegView, Tone, lines_view, push_line, push_seg, repeat, repeat_str, segs_view, single_line,
};
use crate::diagnostic::Severity;
use crate::text::{decimal_text, owned, u64_text};
use crate::walk_report::report::{spec_walk_status, walk_status};

verus! {

// ---------------------------------------------------------------------------
// Lists
// ---------------------------------------------------------------------------

/// A slot row as the slots list shows it: indented two spaces per level.
pub open spec fn slot_label(r: SlotRow) -> Seq<char> {
    repeat("  "@, r.indent as nat) + r.label@
}

pub fn slot_list_label(r: &SlotRow) -> (t: String)
    ensures
        t@ == slot_label(*r),
{
    let mut t = repeat_str("  ", r.indent);
    t.append(r.label.as_str());
    t
}

/// The name a discovered file is listed under: its slice's name when the
/// loaded working set holds it with a slice, else its file stem, else
/// `<file>`.
pub open spec fn display_name(p: Seq<char>, ws: Option<WorkingSet>) -> Seq<char> {
    let from_ws = match ws {
        Some(w) => match file_at_from(w.files@, p, 0) {
            Some(f) => match f.file.slice {
                Some(s) => Some(s.name.name@),
                None => None,
            },
            None => None,
        },
        None => None,
    };
    match from_ws {
        Some(n) => n,
        None => match spec_path_file_stem(p) {
            Some(stem) => stem,
            None => "<file>"@,
        },
    }
}

/// A discovered file as the slices list shows it: a mark for the active
/// root, another for a file of its working set, then its name.
pub open spec fn slice_label(p: Seq<char>, active_root: Seq<char>, ws: Option<WorkingSet>) -> Seq<char> {
    let active = spec_path_key(p) == spec_path_key(active_root);
    let in_ws = match ws {
        Some(w) => file_at_from(w.files@, p, 0) is Some,
        None => false,
    };
    (if active {
        "  ◉"@
    } else if in_ws {
        "  ↳"@
    } else {
        "   "@
    }) + " "@ + display_name(p, ws)
}

pub fn slice_list_label(p: &str, active_root: &str, ws: Option<&WorkingSet>) -> (t: String)
    ensures
        t@ == slice_label(
            p@,
            active_root@,
            match ws {
                Some(w) => Some(*w),
                None => None,
            },
        ),
{
    let found: Option<&LoadedFile> = match ws {
        Some(w) => file_at(w, p),
        None => None,
    };
    let from_ws: Option<String> = match found {
        Some(f) => match &f.file.slice {
            Some(s) => Some(s.name.name.clone()),
            None => None,
        },
        None => None,
    };
    let name = match from_ws {
        Some(n) => n,
        None => match path_file_stem(p) {
            Some(stem) => stem,
            None => owned("<file>"),
        },
    };
    let mut t = if same_path(p, active_root) {
        owned("  ◉")
    } else if found.is_some() {
        owned("  ↳")
    } else {
        owned("   ")
    };
    t.append(" ");
    t.append(name.as_str());
    t
}

/// The icon of a severity, with the space after it.
pub open spec fn severity_icon(s: Severity) -> Seq<char> {
    match s {
        Severity::Error => "✗ "@,
        Severity::Warning => "⚠ "@,
        Severity::Info => "ℹ "@,
    }
}

/// The tones of a severity: plain and emphasised.
pub open spec fn severity_tones(s: Severity) -> (Tone, Tone) {
    match s {
        Severity::Error => (Tone::Error, Tone::ErrorStrong),
        Severity::Warning => (Tone::Warning, Tone::WarningStrong),
        Severity::Info => (Tone::Info, Tone::InfoStrong),
    }
}

/// A diagnostic row as the diagnostics list shows it: icon and code in the
/// severity's tone, then the message.
pub open spec fn diag_list_segs(d: DiagRow) -> Seq<SegView> {
    seq![
        (severity_icon(d.severity), severity_tones(d.severity).0),
        (d.code@, severity_tones(d.severity).1),
        ("  "@, Tone::Raw),
        (d.message@, Tone::Raw),
    ]
}

pub fn diag_list_line(d: &DiagRow) -> (l: Vec<Segment>)
    ensures
        segs_view(l@) == diag_list_segs(*d),
{
    let mut l: Vec<Segment> = Vec::new();
    match d.severity {
        Severity::Error => {
            push_seg(&mut l, owned("✗ "), Tone::Error);
            push_seg(&mut l, d.code.clone(), Tone::ErrorStrong);
        },
        Severity::Warning => {
            push_seg(&mut l, owned("⚠ "), Tone::Warning);
            push_seg(&mut l, d.code.clone(), Tone::WarningStrong);
        },
        Severity::Info => {
            push_seg(&mut l, owned("ℹ "), Tone::Info);
            push_seg(&mut l, d.code.clone(), Tone::InfoStrong);
        },
    }
    push_seg(&mut l, owned("  "), Tone::Raw);
    push_seg(&mut l, d.message.clone(), Tone::Raw);
    assert(segs_view(l@) =~= diag_list_segs(*d));
    l
}

// ---------------------------------------------------------------------------
// Titles and status
// ---------------------------------------------------------------------------

pub open spec fn spec_diagnostics_title(n: nat) -> Seq<char> {
    "[3] Diagnostics ("@ + decimal_text(n) + ")"@
}

pub fn diagnostics_title(n: usize) -> (t: String)
    ensures
        t@ == spec_diagnostics_title(n as nat),
{
    let mut t = owned("[3] Diagnostics (");
    let k = u64_text(n as u64);
    t.append(k.as_str());
    t.append(")");
    t
}

pub open spec fn spec_detail_title(p: Pane) -> Seq<char> {
    match p {
        Pane::Slices => "Detail (slice)"@,
        Pane::Slots => "Detail (slot)"@,
        Pane::Diagnostics => "Detail (diagnostic)"@,
    }
}

pub fn detail_title(p: Pane) -> (t: &'static str)
    ensures
        t@ == spec_detail_title(p),
{
    match p {
        Pane::Slices => "Detail (slice)",
        Pane::Slots => "Detail (slot)",
        Pane::Diagnostics => "Detail (diagnostic)",
    }
}

/// The status line: the walk's status in its tone, the error, warning and
/// info counts, and the key help.
pub open spec fn status_segs(errors: nat, warnings: nat, infos: nat) -> Seq<SegView> {
    seq![
        (spec_walk_status(errors, warnings), if errors > 0 {
            Tone::Error
        } else if warnings > 0 {
            Tone::Warning
        } else {
            Tone::Complete
        }),
        ("  │  "@, Tone::Raw),
        (decimal_text(errors) + "E"@, Tone::Error),
        (" "@, Tone::Raw),
        (decimal_text(warnings) + "W"@, Tone::Warning),
        (" "@, Tone::Raw),
        (decimal_text(infos) + "I"@, Tone::Info),
        ("  │  "@, Tone::Raw),
        ("1/2/3 focus  Tab cycle  j/k move  r reload  q quit"@, Tone::Help),
    ]
}

pub fn status_line(errors: usize, warnings: usize, infos: usize) -> (l: Vec<Segment>)
    ensures
        segs_view(l@) == status_segs(errors as nat, warnings as nat, infos as nat),
{
    let tone = if errors > 0 {
        Tone::Error
    } else if warnings > 0 {
        Tone::Warning
    } else {
        Tone::Complete
    };
    let mut l: Vec<Segment> = Vec::new();
    push_seg(&mut l, owned(walk_status(errors, warnings)), tone);
    push_seg(&mut l, owned("  │  "), Tone::Raw);
    let mut e = u64_text(errors as u64);
    e.append("E");
    push_seg(&mut l, e, Tone::Error);
    push_seg(&mut l, owned(" "), Tone::Raw);
    let mut w = u64_text(warnings as u64);
    w.append("W");
    push_seg(&mut l, w, Tone::Warning);
    push_seg(&mut l, owned(" "), Tone::Raw);
    let mut i = u64_text(infos as u64);
    i.append("I");
    push_seg(&mut l, i, Tone::Info);
    push_seg(&mut l, owned("  │  "), Tone::Raw);
    push_seg(&mut l, owned("1/2/3 focus  Tab cycle  j/k move  r reload  q quit"), Tone::Help);
    assert(segs_view(l@) =~= status_segs(errors as nat, warnings as nat, infos as nat));
    l
}

// ---------------------------------------------------------------------------
// Panel contents by focus
// ---------------------------------------------------------------------------

/// What the detail panel shows: the active file's detail with the slices
/// pane focused, the selected slot's with the slots pane focused, the
/// selected diagnostic's with the diagnostics pane focused.
pub open spec fn spec_detail_panel(
    sel: Selection,
    lf: Option<LoadedFile>,
    slots: Seq<SlotRow>,
    diags: Seq<DiagRow>,
    a: Option<WorkingSetAnalysis>,
) -> LinesView {
    match sel.focused {
        Pane::Slices => spec_detail_for_slice(lf),
        Pane::Slots => spec_detail_for_slot(
            sel.slots,
            slots,
            match lf {
                Some(f) => f.file.slice,
                None => None,
            },
        ),
        Pane::Diagnostics => spec_detail_for_diag(sel.diagnostics, diags, a),
    }
}

pub fn detail_panel(
    sel: &Selection,
    lf: Option<&LoadedFile>,
    slots: &Vec<SlotRow>,
    diags: &Vec<DiagRow>,
    a: Option<&WorkingSetAnalysis>,
) -> (r: Vec<Vec<Segment>>)
    ensures
        lines_view(r@) == spec_detail_panel(
            *sel,
            match lf {
                Some(x) => Some(*x),
                None => None,
            },
            slots@,
            diags@,
            match a {
                Some(x) => Some(*x),
                None => None,
            },
        ),
{
    match sel.focused {
        Pane::Slices => detail_for_slice(lf),
        Pane::Slots => {
            let slice = match lf {
                Some(f) => match &f.file.slice {
                    Some(s) => Some(s),
                    None => None,
                },
                None => None,
            };
            detail_for_slot(sel.slots, slots, slice)
        },
        Pane::Diagnostics => detail_for_diag(sel.diagnostics, diags, a),
    }
}

/// What the graph panel shows: the selected slot's neighbours with the
/// slots pane focused, a pointer to that pane otherwise.
pub open spec fn spec_graph_panel(sel: Selection, lf: Option<LoadedFile>, slots: Seq<SlotRow>) -> LinesView {
    match sel.focused {
        Pane::Slots => spec_graph_for_slot(sel.slots, slots, lf),
        _ => seq![seq![("(focus the Slots pane and select an id to see its graph neighbors)"@, Tone::Muted)]],
    }
}

pub fn graph_panel(sel: &Selection, lf: Option<&LoadedFile>, slots: &Vec<SlotRow>) -> (r: Vec<Vec<Segment>>)
    ensures
        lines_view(r@) == spec_graph_panel(
            *sel,
            match lf {
                Some(x) => Some(*x),
                None => None,
            },
            slots@,
        ),
{
    match sel.focused {
        Pane::Slots => graph_for_slot(sel.slots, slots, lf),
        _ => {
            let mut out: Vec<Vec<Segment>> = Vec::new();
            push_line(
                &mut out,
                single_line(owned("(focus the Slots pane and select an id to see its graph neighbors)"), Tone::Muted),
            );
            assert(lines_view(out@) =~~= seq![
                seq![("(focus the Slots pane and select an id to see its graph neighbors)"@, Tone::Muted)],
            ]);
            out
        },
    }
}

} // verus!
