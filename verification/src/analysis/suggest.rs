//! `memspec suggest`: the next missing slot or clause, as a fill-in template.
//!
//! Deterministic: given a file, the single highest-priority gap and a
//! template that fills it. Priority (most blocking first):
//! 1. empty slice: a cell template;
//! 2. forbidden state without a predicate/cells body: a predicate;
//! 3. a required field missing: the field;
//! 4. a forbidden state's `kill_test:` that does not resolve: the kill_test
//!    block;
//! 5. a kill_test's `forbidden:` that does not resolve: the forbidden_state
//!    block;
//! 6. a missing post_failure row: the post_failure block;
//! then any other error, without a template; else the walk is complete.

use vstd::prelude::*;

use crate::analysis::analysis_diags;
use crate::analysis::index::{is_named, item_name};
use crate::analysis::nav::{block_name_str, field_ident, kind_is, spec_field_ident};
use crate::analysis::query::opt_str;
use crate::analysis::{coherence, structural, symmetric_failure};
use crate::ast::{BlockItem, File, SliceDecl};
use crate::diagnostic::codes;
use crate::diagnostic::{DiagView, Diagnostic, Severity, dv, dvs};
use crate::span::Span;
use vstd::string::StringSliceAdditionalSpecFns;
use crate::text::{chars_of, find_in, find_seq, owned, str_eq, string_of, suffix};

verus! {

pub struct SuggestReport {
    pub status: SuggestStatus,
    pub gap: Option<Gap>,
}

#[derive(Debug, Clone, Copy, PartialEq, Eq, Structural)]
pub enum SuggestStatus {
    /// Walk-complete: no analyzer error of any kind.
    WalkComplete,
    /// At least one gap exists; `gap` is populated.
    Gap,
    /// The file has parse errors; nothing to suggest until they are fixed.
    ParseErrors,
}

pub struct Gap {
    pub kind: GapKind,
    pub message: String,
    pub diagnostic_code: &'static str,
    pub span: Span,
    /// `.memspec` text to paste in, indented for a slice body.
    pub template: String,
    /// Where to insert the template.
    pub insert_after: InsertHint,
}

#[derive(Debug, Clone, Copy, PartialEq, Eq, Structural)]
pub enum GapKind {
    /// The slice is empty.
    EmptySlice,
    /// A block is missing a required field.
    MissingField,
    /// A forbidden_state has no `predicate:` or `cells:` body.
    ForbiddenStateBody,
    /// A kill_test id is referenced but not declared.
    MissingKillTest,
    /// A forbidden_state id is referenced by a kill_test but not declared.
    MissingForbiddenState,
    /// An event's fallible steps need a post_failure row.
    MissingPostFailure,
}

pub enum InsertHint {
    AfterBlock { id: String },
    EndOfSlice,
    InsideBlock { id: String },
}

/// Where-to-insert as plain values: 0 after the block named, 1 end of
/// slice, 2 inside the block named.
pub open spec fn hint_view(h: InsertHint) -> (int, Seq<char>) {
    match h {
        InsertHint::AfterBlock { id } => (0, id@),
        InsertHint::EndOfSlice => (1, seq![]),
        InsertHint::InsideBlock { id } => (2, id@),
    }
}

/// A gap as plain values: kind, message, code, span, template, hint.
pub type GapView = (GapKind, Seq<char>, Seq<char>, Span, Seq<char>, (int, Seq<char>));

pub open spec fn gap_view(g: Gap) -> GapView {
    (g.kind, g.message@, g.diagnostic_code@, g.span, g.template@, hint_view(g.insert_after))
}

pub open spec fn report_view(r: SuggestReport) -> (SuggestStatus, Option<GapView>) {
    (
        r.status,
        match r.gap {
            Some(g) => Some(gap_view(g)),
            None => None,
        },
    )
}

// ---------------------------------------------------------------------------
// Message parsing
// ---------------------------------------------------------------------------

/// The first backtick-quoted token of a message.
pub open spec fn spec_id_from_message(m: Seq<char>) -> Option<Seq<char>> {
    match find_in(m, seq!['`']) {
        None => None,
        Some(s) => {
            let rest = m.subrange(s + 1, m.len() as int);
            match find_in(rest, seq!['`']) {
                None => None,
                Some(e) => Some(rest.subrange(0, e)),
            }
        },
    }
}

/// The first backtick-quoted token after the first occurrence of `marker`.
pub open spec fn spec_extract_quoted_after(m: Seq<char>, marker: Seq<char>) -> Option<Seq<char>> {
    match find_in(m, marker) {
        None => None,
        Some(p) => spec_id_from_message(m.subrange(p + marker.len(), m.len() as int)),
    }
}

/// `s` without its trailing colons.
pub open spec fn trim_colons(s: Seq<char>) -> Seq<char>
    decreases s.len(),
{
    if s.len() > 0 && s.last() == ':' {
        trim_colons(s.drop_last())
    } else {
        s
    }
}

/// The field named in a ``required field `<key>:` `` message.
pub open spec fn spec_extract_field_name(m: Seq<char>) -> Option<Seq<char>> {
    let marker = "required field `"@;
    match find_in(m, marker) {
        None => None,
        Some(p) => {
            let rest = m.subrange(p + marker.len(), m.len() as int);
            match find_in(rest, seq!['`']) {
                None => None,
                Some(e) => Some(trim_colons(rest.subrange(0, e))),
            }
        },
    }
}

/// `event: X, step: Y` read out of a symmetric-failure message; the step
/// ends at the first backtick, else the first space, else the end.
pub open spec fn spec_parse_event_step(m: Seq<char>) -> Option<(Seq<char>, Seq<char>)> {
    let em = "event: "@;
    let sm = ", step: "@;
    match find_in(m, em) {
        None => None,
        Some(ep) => {
            let after_ep = m.subrange(ep + em.len(), m.len() as int);
            match find_in(after_ep, sm) {
                None => None,
                Some(sp) => {
                    let after_sp = after_ep.subrange(sp + sm.len(), after_ep.len() as int);
                    let end = match find_in(after_sp, seq!['`']) {
                        Some(e) => e,
                        None => match find_in(after_sp, seq![' ']) {
                            Some(e) => e,
                            None => after_sp.len() as int,
                        },
                    };
                    Some((after_ep.subrange(0, sp), after_sp.subrange(0, end)))
                },
            }
        },
    }
}

/// The text of `v[from..]` up to (not including) the next backtick, and
/// where that backtick stands.
fn quoted_in(v: &Vec<char>, from: usize) -> (r: Option<String>)
    requires
        from <= v@.len(),
    ensures
        opt_str(r) == match find_in(v@.subrange(from as int, v@.len() as int), seq!['`']) {
            None => None,
            Some(e) => Some(v@.subrange(from as int, v@.len() as int).subrange(0, e)),
        },
{
    let rest = suffix(v, from);
    let bt: Vec<char> = vec!['`'];
    assert(bt@ =~= seq!['`']);
    match find_seq(&rest, &bt) {
        None => None,
        Some(e) => {
            proof {
                crate::text::lemma_find_in_bounds(rest@, bt@);
            }
            Some(string_of(&rest, 0, e))
        },
    }
}

/// The first backtick-quoted token of a message.
pub fn id_from_message(message: &str) -> (r: Option<String>)
    ensures
        opt_str(r) == spec_id_from_message(message@),
{
    let m = chars_of(message);
    let bt: Vec<char> = vec!['`'];
    assert(bt@ =~= seq!['`']);
    match find_seq(&m, &bt) {
        None => None,
        Some(s) => {
            proof {
                crate::text::lemma_find_in_bounds(m@, bt@);
            }
            quoted_in(&m, s + 1)
        },
    }
}

/// The first backtick-quoted token after `marker`.
pub fn extract_quoted_after(message: &str, marker: &str) -> (r: Option<String>)
    ensures
        opt_str(r) == spec_extract_quoted_after(message@, marker@),
{
    let m = chars_of(message);
    let mk = chars_of(marker);
    match find_seq(&m, &mk) {
        None => None,
        Some(p) => {
            proof {
                crate::text::lemma_find_in_bounds(m@, mk@);
            }
            let rest = suffix(&m, p + mk.len());
            let bt: Vec<char> = vec!['`'];
            assert(bt@ =~= seq!['`']);
            match find_seq(&rest, &bt) {
                None => None,
                Some(s) => {
                    proof {
                        crate::text::lemma_find_in_bounds(rest@, bt@);
                    }
                    quoted_in(&rest, s + 1)
                },
            }
        },
    }
}

fn trim_trailing_colons(v: &Vec<char>, to: usize) -> (r: usize)
    requires
        to <= v@.len(),
    ensures
        r <= to,
        trim_colons(v@.subrange(0, to as int)) == v@.subrange(0, r as int),
{
    let mut end = to;
    while end > 0 && v[end - 1] == ':'
        invariant
            end <= to,
            to <= v@.len(),
            trim_colons(v@.subrange(0, to as int)) == trim_colons(v@.subrange(0, end as int)),
        decreases end,
    {
        assert(v@.subrange(0, end as int).drop_last() =~= v@.subrange(0, end as int - 1));
        end = end - 1;
    }
    end
}

/// The field named in a structural missing-field message.
pub fn extract_field_name(message: &str) -> (r: Option<String>)
    ensures
        opt_str(r) == spec_extract_field_name(message@),
{
    let m = chars_of(message);
    let mk = chars_of("required field `");
    match find_seq(&m, &mk) {
        None => None,
        Some(p) => {
            proof {
                crate::text::lemma_find_in_bounds(m@, mk@);
            }
            let rest = suffix(&m, p + mk.len());
            let bt: Vec<char> = vec!['`'];
            assert(bt@ =~= seq!['`']);
            match find_seq(&rest, &bt) {
                None => None,
                Some(e) => {
                    proof {
                        crate::text::lemma_find_in_bounds(rest@, bt@);
                    }
                    let end = trim_trailing_colons(&rest, e);
                    Some(string_of(&rest, 0, end))
                },
            }
        },
    }
}

/// `event: X, step: Y` out of a symmetric-failure message.
pub fn parse_event_step(message: &str) -> (r: Option<(String, String)>)
    ensures
        match r {
            None => spec_parse_event_step(message@) is None,
            Some((e, s)) => spec_parse_event_step(message@) == Some((e@, s@)),
        },
{
    let m = chars_of(message);
    let em = chars_of("event: ");
    let sm = chars_of(", step: ");
    let ep = match find_seq(&m, &em) {
        None => return None,
        Some(ep) => ep,
    };
    proof {
        crate::text::lemma_find_in_bounds(m@, em@);
    }
    let after_ep = suffix(&m, ep + em.len());
    let sp = match find_seq(&after_ep, &sm) {
        None => return None,
        Some(sp) => sp,
    };
    proof {
        crate::text::lemma_find_in_bounds(after_ep@, sm@);
    }
    let event = string_of(&after_ep, 0, sp);
    let after_sp = suffix(&after_ep, sp + sm.len());
    let bt: Vec<char> = vec!['`'];
    let sp_c: Vec<char> = vec![' '];
    assert(bt@ =~= seq!['`']);
    assert(sp_c@ =~= seq![' ']);
    let end = match find_seq(&after_sp, &bt) {
        Some(e) => e,
        None => match find_seq(&after_sp, &sp_c) {
            Some(e) => e,
            None => after_sp.len(),
        },
    };
    proof {
        crate::text::lemma_find_in_bounds(after_sp@, bt@);
        crate::text::lemma_find_in_bounds(after_sp@, sp_c@);
    }
    let step = string_of(&after_sp, 0, end);
    Some((event, step))
}

// ---------------------------------------------------------------------------
// Templates
// ---------------------------------------------------------------------------

pub open spec fn spec_cell_template(id: Seq<char>, ty: Seq<char>) -> Seq<char> {
    "  cell "@ + id + " {\n    type: "@ + ty
        + "\n    mutable: true\n    // ref: \"path/to/file.rs:NN\"  // optional advisory\n  }\n"@
}

fn cell_template(id: &str, ty: &str) -> (r: String)
    ensures
        r@ == spec_cell_template(id@, ty@),
{
    let mut r = owned("  cell ");
    r.append(id);
    r.append(" {\n    type: ");
    r.append(ty);
    r.append("\n    mutable: true\n    // ref: \"path/to/file.rs:NN\"  // optional advisory\n  }\n");
    r
}

/// The one-line template for a missing field `key`.
pub open spec fn field_line(key: Seq<char>) -> Seq<char> {
    if key == "type"@ {
        "  type: <abstract-type>  // boolean | enum<...> | set<X> | append_only_relation<X> | ...\n"@
    } else if key == "mutable"@ {
        "  mutable: true\n"@
    } else if key == "derives_from"@ {
        "  derives_from: [<source-cell-id>, <source-cell-id>]\n"@
    } else if key == "derivation"@ {
        "  derivation: \"<expression over derives_from>\"\n"@
    } else if key == "invariant"@ {
        "  invariant: \"<expression that must always hold>\"\n"@
    } else if key == "over"@ {
        "  over: [<cell-id>, <cell-id>]\n"@
    } else if key == "enforced_by"@ {
        "  enforced_by: <schema | callback | method | event_handler(<event-id>) | construction_only | derivation | convention | none>\n"@
    } else if key == "mutates"@ {
        "  mutates: [<cell-id>]\n"@
    } else if key == "op"@ {
        "  op: \"<operation source-language identifier>\"\n"@
    } else if key == "fallible"@ {
        "  fallible: true  // or false\n"@
    } else if key == "event"@ {
        "  event: <event-id>\n"@
    } else if key == "step"@ {
        "  step: <step-id>  // must exist inside the named event\n"@
    } else if key == "outcome"@ {
        "  outcome: \"Err(<failure-mode>)\"\n"@
    } else if key == "description"@ {
        "  description: \"<plain-language statement of why this state is forbidden>\"\n"@
    } else if key == "reachability"@ {
        "  reachability: currently_reachable  // or runtime_unreachable | structurally_unreachable\n"@
    } else if key == "kill_test"@ {
        "  kill_test: <kill_test-id>  // or `TODO` to acknowledge the obligation without resolving it\n"@
    } else if key == "forbidden"@ {
        "  forbidden: <forbidden_state-id>\n"@
    } else if key == "kind"@ {
        "  kind: structural  // or behavioural | type_shape | property | model_check\n"@
    } else if key == "assertion"@ {
        "  assertion: \"<plain-language statement of what would prove this state unreachable>\"\n"@
    } else {
        "  "@ + key + ": <value>\n"@
    }
}

pub open spec fn spec_missing_field_template(message: Seq<char>) -> Seq<char> {
    match spec_extract_field_name(message) {
        Some(key) => field_line(key),
        None => "  <field>: <value>\n"@,
    }
}

fn field_line_text(key: &str) -> (r: String)
    ensures
        r@ == field_line(key@),
{
    if str_eq(key, "type") {
        owned("  type: <abstract-type>  // boolean | enum<...> | set<X> | append_only_relation<X> | ...\n")
    } else if str_eq(key, "mutable") {
        owned("  mutable: true\n")
    } else if str_eq(key, "derives_from") {
        owned("  derives_from: [<source-cell-id>, <source-cell-id>]\n")
    } else if str_eq(key, "derivation") {
        owned("  derivation: \"<expression over derives_from>\"\n")
    } else if str_eq(key, "invariant") {
        owned("  invariant: \"<expression that must always hold>\"\n")
    } else if str_eq(key, "over") {
        owned("  over: [<cell-id>, <cell-id>]\n")
    } else if str_eq(key, "enforced_by") {
        owned(
            "  enforced_by: <schema | callback | method | event_handler(<event-id>) | construction_only | derivation | convention | none>\n",
        )
    } else if str_eq(key, "mutates") {
        owned("  mutates: [<cell-id>]\n")
    } else if str_eq(key, "op") {
        owned("  op: \"<operation source-language identifier>\"\n")
    } else if str_eq(key, "fallible") {
        owned("  fallible: true  // or false\n")
    } else if str_eq(key, "event") {
        owned("  event: <event-id>\n")
    } else if str_eq(key, "step") {
        owned("  step: <step-id>  // must exist inside the named event\n")
    } else if str_eq(key, "outcome") {
        owned("  outcome: \"Err(<failure-mode>)\"\n")
    } else if str_eq(key, "description") {
        owned("  description: \"<plain-language statement of why this state is forbidden>\"\n")
    } else if str_eq(key, "reachability") {
        owned("  reachability: currently_reachable  // or runtime_unreachable | structurally_unreachable\n")
    } else if str_eq(key, "kill_test") {
        owned("  kill_test: <kill_test-id>  // or `TODO` to acknowledge the obligation without resolving it\n")
    } else if str_eq(key, "forbidden") {
        owned("  forbidden: <forbidden_state-id>\n")
    } else if str_eq(key, "kind") {
        owned("  kind: structural  // or behavioural | type_shape | property | model_check\n")
    } else if str_eq(key, "assertion") {
        owned("  assertion: \"<plain-language statement of what would prove this state unreachable>\"\n")
    } else {
        let mut r = owned("  ");
        r.append(key);
        r.append(": <value>\n");
        r
    }
}

fn missing_field_template(message: &str) -> (r: String)
    ensures
        r@ == spec_missing_field_template(message@),
{
    match extract_field_name(message) {
        Some(key) => field_line_text(key.as_str()),
        None => owned("  <field>: <value>\n"),
    }
}

pub open spec fn spec_kill_test_template(kt: Seq<char>, fs: Seq<char>) -> Seq<char> {
    "  kill_test "@ + kt + " {\n    forbidden: "@ + fs
        + "\n    kind: structural  // or behavioural | type_shape | property | model_check\n    assertion: \"<what would prove "@
        + fs + " is unreachable>\"\n    status: declared\n  }\n"@
}

fn kill_test_template(kt_id: &str, fs_id: &str) -> (r: String)
    ensures
        r@ == spec_kill_test_template(kt_id@, fs_id@),
{
    let mut r = owned("  kill_test ");
    r.append(kt_id);
    r.append(" {\n    forbidden: ");
    r.append(fs_id);
    r.append("\n    kind: structural  // or behavioural | type_shape | property | model_check\n    assertion: \"<what would prove ");
    r.append(fs_id);
    r.append(" is unreachable>\"\n    status: declared\n  }\n");
    r
}

pub open spec fn spec_forbidden_state_template(fs: Seq<char>) -> Seq<char> {
    "  forbidden_state "@ + fs
        + " {\n    description: \"<plain-language statement of why this is forbidden>\"\n    predicate: \"<expression over your declared cells>\"\n    reachability: currently_reachable\n    kill_test: <kill_test-id-or-TODO>\n  }\n"@
}

fn forbidden_state_template(fs_id: &str) -> (r: String)
    ensures
        r@ == spec_forbidden_state_template(fs_id@),
{
    let mut r = owned("  forbidden_state ");
    r.append(fs_id);
    r.append(
        " {\n    description: \"<plain-language statement of why this is forbidden>\"\n    predicate: \"<expression over your declared cells>\"\n    reachability: currently_reachable\n    kill_test: <kill_test-id-or-TODO>\n  }\n",
    );
    r
}

pub open spec fn spec_cells_block(atomicity: Seq<char>) -> Seq<char> {
    if atomicity == "transactional"@ || atomicity == "db_transaction"@ {
        "    cells_after_pre_rollback {\n      // <cell-id>: <value-after-step-committed-but-before-rollback>\n    }\n    cells_after_rollback {\n      // <cell-id>: <value-after-rollback-restores-pre-event-state>\n    }\n"@
    } else {
        "    cells_after {\n      // <cell-id>: <value-after-failure>\n    }\n"@
    }
}

pub open spec fn spec_post_failure_template(event: Seq<char>, step: Seq<char>, atomicity: Seq<char>) -> Seq<char> {
    "  post_failure pf_"@ + event + "_"@ + step + "_fail {\n    event: "@ + event + "\n    step: "@ + step
        + "\n    outcome: \"Err(<failure-mode>)\"\n"@ + spec_cells_block(atomicity) + "    result: rejected\n  }\n"@
}

fn post_failure_template(event: &str, step: &str, atomicity: &str) -> (r: String)
    ensures
        r@ == spec_post_failure_template(event@, step@, atomicity@),
{
    let cells_block: &str = if str_eq(atomicity, "transactional") || str_eq(atomicity, "db_transaction") {
        "    cells_after_pre_rollback {\n      // <cell-id>: <value-after-step-committed-but-before-rollback>\n    }\n    cells_after_rollback {\n      // <cell-id>: <value-after-rollback-restores-pre-event-state>\n    }\n"
    } else {
        "    cells_after {\n      // <cell-id>: <value-after-failure>\n    }\n"
    };
    let mut r = owned("  post_failure pf_");
    r.append(event);
    r.append("_");
    r.append(step);
    r.append("_fail {\n    event: ");
    r.append(event);
    r.append("\n    step: ");
    r.append(step);
    r.append("\n    outcome: \"Err(<failure-mode>)\"\n");
    r.append(cells_block);
    r.append("    result: rejected\n  }\n");
    r
}

pub open spec fn spec_fs_body_template(id: Seq<char>) -> Seq<char> {
    "  // add to forbidden_state `"@ + id + "`:\n  predicate: \"<expression over your declared cells>\"\n"@
}

// ---------------------------------------------------------------------------
// Slice lookups
// ---------------------------------------------------------------------------

/// The name of the last `kind` block with an identifier name.
pub open spec fn spec_last_block_id(items: Seq<BlockItem>, kind: Seq<char>) -> Option<Seq<char>>
    decreases items.len(),
{
    if items.len() == 0 {
        None
    } else if is_named(items.last(), kind) {
        Some(item_name(items.last()))
    } else {
        spec_last_block_id(items.drop_last(), kind)
    }
}

/// The `atomicity:` identifier of the first event named `id` that has one,
/// scanning from `i`; `none` when there is none.
pub open spec fn atomicity_from(items: Seq<BlockItem>, id: Seq<char>, i: int) -> Seq<char>
    decreases items.len() - i,
{
    if i < 0 || i >= items.len() {
        "none"@
    } else if is_named(items[i], "event"@) && item_name(items[i]) == id && spec_field_ident(
        items[i]->Block_0,
        "atomicity"@,
    ) is Some {
        spec_field_ident(items[i]->Block_0, "atomicity"@)->0.name@
    } else {
        atomicity_from(items, id, i + 1)
    }
}

fn last_block_id(slice: &SliceDecl, kind: &str) -> (r: Option<String>)
    ensures
        opt_str(r) == spec_last_block_id(slice.items@, kind@),
{
    let items = &slice.items;
    let mut i: usize = items.len();
    assert(items@.subrange(0, i as int) =~= items@);
    while i > 0
        invariant
            i <= items@.len(),
            items@ == slice.items@,
            spec_last_block_id(items@, kind@) == spec_last_block_id(items@.subrange(0, i as int), kind@),
        decreases i,
    {
        let ghost pre = items@.subrange(0, i as int);
        assert(pre.drop_last() =~= items@.subrange(0, i as int - 1));
        assert(pre.last() == items@[i as int - 1]);
        match &items[i - 1] {
            BlockItem::Block(b) => {
                if kind_is(b, kind) {
                    match block_name_str(b) {
                        Some(n) => {
                            return Some(owned(n));
                        },
                        None => {},
                    }
                }
            },
            _ => {},
        }
        i = i - 1;
    }
    None
}

fn event_atomicity(slice: &SliceDecl, event_id: &str) -> (r: String)
    ensures
        r@ == atomicity_from(slice.items@, event_id@, 0),
{
    let items = &slice.items;
    let mut i: usize = 0;
    while i < items.len()
        invariant
            i <= items@.len(),
            items@ == slice.items@,
            atomicity_from(items@, event_id@, 0) == atomicity_from(items@, event_id@, i as int),
        decreases items@.len() - i,
    {
        match &items[i] {
            BlockItem::Block(b) => {
                if kind_is(b, "event") {
                    match block_name_str(b) {
                        Some(n) => {
                            if str_eq(n, event_id) {
                                match field_ident(b, "atomicity") {
                                    Some(a) => {
                                        return owned(a.name.as_str());
                                    },
                                    None => {},
                                }
                            }
                        },
                        None => {},
                    }
                }
            },
            _ => {},
        }
        i = i + 1;
    }
    owned("none")
}

/// The first diagnostic with code `c`, scanning from `i`.
pub open spec fn first_with_code(ds: Seq<DiagView>, c: Seq<char>, i: int) -> Option<DiagView>
    decreases ds.len() - i,
{
    if i < 0 || i >= ds.len() {
        None
    } else if ds[i].0 == c {
        Some(ds[i])
    } else {
        first_with_code(ds, c, i + 1)
    }
}

/// The first error, scanning from `i`.
pub open spec fn first_error(ds: Seq<DiagView>, i: int) -> Option<DiagView>
    decreases ds.len() - i,
{
    if i < 0 || i >= ds.len() {
        None
    } else if ds[i].1 == Severity::Error {
        Some(ds[i])
    } else {
        first_error(ds, i + 1)
    }
}

fn diag_with_code<'a>(diags: &'a Vec<Diagnostic>, code: &str) -> (r: Option<&'a Diagnostic>)
    ensures
        match r {
            Some(d) => first_with_code(dvs(diags@), code@, 0) == Some(dv(*d)),
            None => first_with_code(dvs(diags@), code@, 0) is None,
        },
{
    let mut i: usize = 0;
    while i < diags.len()
        invariant
            i <= diags@.len(),
            first_with_code(dvs(diags@), code@, 0) == first_with_code(dvs(diags@), code@, i as int),
        decreases diags@.len() - i,
    {
        if str_eq(diags[i].code, code) {
            return Some(&diags[i]);
        }
        i = i + 1;
    }
    None
}

fn first_error_diag<'a>(diags: &'a Vec<Diagnostic>) -> (r: Option<&'a Diagnostic>)
    ensures
        match r {
            Some(d) => first_error(dvs(diags@), 0) == Some(dv(*d)),
            None => first_error(dvs(diags@), 0) is None,
        },
{
    let mut i: usize = 0;
    while i < diags.len()
        invariant
            i <= diags@.len(),
            first_error(dvs(diags@), 0) == first_error(dvs(diags@), i as int),
        decreases diags@.len() - i,
    {
        if diags[i].severity == Severity::Error {
            return Some(&diags[i]);
        }
        i = i + 1;
    }
    None
}

fn or_default(o: Option<String>, d: &str) -> (r: String)
    ensures
        r@ == match opt_str(o) {
            Some(s) => s,
            None => d@,
        },
{
    match o {
        Some(s) => s,
        None => owned(d),
    }
}

pub open spec fn or_else(o: Option<Seq<char>>, d: Seq<char>) -> Seq<char> {
    match o {
        Some(s) => s,
        None => d,
    }
}

pub open spec fn after_or_end(o: Option<Seq<char>>) -> (int, Seq<char>) {
    match o {
        Some(id) => (0, id),
        None => (1, seq![]),
    }
}

fn hint_after(o: Option<String>) -> (r: InsertHint)
    ensures
        hint_view(r) == after_or_end(opt_str(o)),
{
    match o {
        Some(id) => InsertHint::AfterBlock { id },
        None => InsertHint::EndOfSlice,
    }
}

/// The highest-priority gap that has a template.
pub open spec fn spec_next_gap(slice: SliceDecl, ds: Seq<DiagView>) -> Option<GapView> {
    let items = slice.items@;
    if let Some(d) = first_with_code(ds, codes::E_STRUCT_EMPTY_SLICE@, 0) {
        Some((GapKind::EmptySlice, d.2, d.0, d.3, spec_cell_template("rule_state"@, "boolean"@), (1, seq![])))
    } else if let Some(d) = first_with_code(ds, codes::E_STRUCT_FORBIDDEN_STATE_BODY@, 0) {
        let id = or_else(spec_id_from_message(d.2), "<id>"@);
        Some((GapKind::ForbiddenStateBody, d.2, d.0, d.3, spec_fs_body_template(id), (2, id)))
    } else if let Some(d) = first_with_code(ds, codes::E_STRUCT_MISSING_FIELD@, 0) {
        Some((GapKind::MissingField, d.2, d.0, d.3, spec_missing_field_template(d.2), (1, seq![])))
    } else if let Some(d) = first_with_code(ds, codes::E_COH_UNRESOLVED_KILL_TEST_REF@, 0) {
        let kt = or_else(spec_extract_quoted_after(d.2, "unknown kill_test"@), "<id>"@);
        let fs = or_else(spec_extract_quoted_after(d.2, "forbidden_state"@), "<fs>"@);
        Some(
            (
                GapKind::MissingKillTest,
                d.2,
                d.0,
                d.3,
                spec_kill_test_template(kt, fs),
                after_or_end(spec_last_block_id(items, "kill_test"@)),
            ),
        )
    } else if let Some(d) = first_with_code(ds, codes::E_COH_UNRESOLVED_FORBIDDEN_REF@, 0) {
        let fs = or_else(spec_extract_quoted_after(d.2, "unknown forbidden_state"@), "<id>"@);
        Some(
            (
                GapKind::MissingForbiddenState,
                d.2,
                d.0,
                d.3,
                spec_forbidden_state_template(fs),
                after_or_end(spec_last_block_id(items, "forbidden_state"@)),
            ),
        )
    } else if let Some(d) = first_with_code(ds, codes::E_SYMFAIL_MISSING_POST_FAILURE@, 0) {
        let (event, step) = match spec_parse_event_step(d.2) {
            Some(p) => p,
            None => ("<event>"@, "<step>"@),
        };
        Some(
            (
                GapKind::MissingPostFailure,
                d.2,
                d.0,
                d.3,
                spec_post_failure_template(event, step, atomicity_from(items, event, 0)),
                after_or_end(spec_last_block_id(items, "post_failure"@)),
            ),
        )
    } else {
        None
    }
}

/// What `suggest` answers for a file whose analyzer diagnostics are `ds`.
pub open spec fn spec_suggest(file: File, ds: Seq<DiagView>) -> (SuggestStatus, Option<GapView>) {
    let gap = match file.slice {
        Some(s) => spec_next_gap(s, ds),
        None => None,
    };
    match gap {
        Some(g) => (SuggestStatus::Gap, Some(g)),
        None => match first_error(ds, 0) {
            Some(d) => (
                SuggestStatus::Gap,
                Some(
                    (
                        GapKind::MissingField,
                        d.2 + " (no template available — fix manually)"@,
                        d.0,
                        d.3,
                        seq![],
                        (1, seq![]),
                    ),
                ),
            ),
            None => (SuggestStatus::WalkComplete, None),
        },
    }
}

fn next_gap(slice: &SliceDecl, diagnostics: &Vec<Diagnostic>) -> (r: Option<Gap>)
    ensures
        match r {
            Some(g) => spec_next_gap(*slice, dvs(diagnostics@)) == Some(gap_view(g)),
            None => spec_next_gap(*slice, dvs(diagnostics@)) is None,
        },
{
    if let Some(d) = diag_with_code(diagnostics, codes::E_STRUCT_EMPTY_SLICE) {
        return Some(
            Gap {
                kind: GapKind::EmptySlice,
                message: d.message.clone(),
                diagnostic_code: d.code,
                span: d.span,
                template: cell_template("rule_state", "boolean"),
                insert_after: InsertHint::EndOfSlice,
            },
        );
    }
    if let Some(d) = diag_with_code(diagnostics, codes::E_STRUCT_FORBIDDEN_STATE_BODY) {
        let id = or_default(id_from_message(d.message.as_str()), "<id>");
        let mut template = owned("  // add to forbidden_state `");
        template.append(id.as_str());
        template.append("`:\n  predicate: \"<expression over your declared cells>\"\n");
        let hint_id = owned(id.as_str());
        return Some(
            Gap {
                kind: GapKind::ForbiddenStateBody,
                message: d.message.clone(),
                diagnostic_code: d.code,
                span: d.span,
                template,
                insert_after: InsertHint::InsideBlock { id: hint_id },
            },
        );
    }
    if let Some(d) = diag_with_code(diagnostics, codes::E_STRUCT_MISSING_FIELD) {
        return Some(
            Gap {
                kind: GapKind::MissingField,
                message: d.message.clone(),
                diagnostic_code: d.code,
                span: d.span,
                template: missing_field_template(d.message.as_str()),
                insert_after: InsertHint::EndOfSlice,
            },
        );
    }
    if let Some(d) = diag_with_code(diagnostics, codes::E_COH_UNRESOLVED_KILL_TEST_REF) {
        let kt_id = or_default(extract_quoted_after(d.message.as_str(), "unknown kill_test"), "<id>");
        let fs_id = or_default(extract_quoted_after(d.message.as_str(), "forbidden_state"), "<fs>");
        return Some(
            Gap {
                kind: GapKind::MissingKillTest,
                message: d.message.clone(),
                diagnostic_code: d.code,
                span: d.span,
                template: kill_test_template(kt_id.as_str(), fs_id.as_str()),
                insert_after: hint_after(last_block_id(slice, "kill_test")),
            },
        );
    }
    if let Some(d) = diag_with_code(diagnostics, codes::E_COH_UNRESOLVED_FORBIDDEN_REF) {
        let fs_id = or_default(extract_quoted_after(d.message.as_str(), "unknown forbidden_state"), "<id>");
        return Some(
            Gap {
                kind: GapKind::MissingForbiddenState,
                message: d.message.clone(),
                diagnostic_code: d.code,
                span: d.span,
                template: forbidden_state_template(fs_id.as_str()),
                insert_after: hint_after(last_block_id(slice, "forbidden_state")),
            },
        );
    }
    if let Some(d) = diag_with_code(diagnostics, codes::E_SYMFAIL_MISSING_POST_FAILURE) {
        let (event, step) = match parse_event_step(d.message.as_str()) {
            Some(p) => p,
            None => (owned("<event>"), owned("<step>")),
        };
        let atomicity = event_atomicity(slice, event.as_str());
        return Some(
            Gap {
                kind: GapKind::MissingPostFailure,
                message: d.message.clone(),
                diagnostic_code: d.code,
                span: d.span,
                template: post_failure_template(event.as_str(), step.as_str(), atomicity.as_str()),
                insert_after: hint_after(last_block_id(slice, "post_failure")),
            },
        );
    }
    None
}

/// The suggestion for a file whose analyzer diagnostics are `diagnostics`:
/// exactly [`spec_suggest`].
pub fn suggest_with(file: &File, diagnostics: &Vec<Diagnostic>) -> (r: SuggestReport)
    ensures
        report_view(r) == spec_suggest(*file, dvs(diagnostics@)),
{
    let gap = match &file.slice {
        Some(s) => next_gap(s, diagnostics),
        None => None,
    };
    match gap {
        Some(g) => SuggestReport { status: SuggestStatus::Gap, gap: Some(g) },
        None => match first_error_diag(diagnostics) {
            Some(d) => {
                let mut message = d.message.clone();
                message.append(" (no template available — fix manually)");
                SuggestReport {
                    status: SuggestStatus::Gap,
                    gap: Some(
                        Gap {
                            kind: GapKind::MissingField,
                            message,
                            diagnostic_code: d.code,
                            span: d.span,
                            template: String::new(),
                            insert_after: InsertHint::EndOfSlice,
                        },
                    ),
                }
            },
            None => SuggestReport { status: SuggestStatus::WalkComplete, gap: None },
        },
    }
}

/// Run the three per-file passes, then answer as [`suggest_with`] does on
/// what they reported.
pub fn suggest(file: &File) -> (r: SuggestReport)
    ensures
        exists|ds: Seq<DiagView>| analysis_diags(*file, ds) && report_view(r) == spec_suggest(*file, ds),
{
    let analysis = crate::analysis::analyze(file);
    suggest_with(file, &analysis.diagnostics)
}

fn has_errors(diags: &Vec<Diagnostic>) -> (r: bool)
    ensures
        r == (first_error(dvs(diags@), 0) is Some),
{
    first_error_diag(diags).is_some()
}

/// Parse first: when parsing reports an error the answer is `ParseErrors`
/// with no gap; otherwise it is what [`suggest`] gives for the parsed file.
pub fn suggest_from_source(source: &str) -> (r: SuggestReport)
    ensures
        exists|f: File, pds: Seq<Diagnostic>|
            {
                &&& crate::ast::file_ok(source.spec_bytes(), f)
                &&& crate::parser::front_diags_ok(pds, source.spec_bytes().len() as int)
                &&& if first_error(dvs(pds), 0) is Some {
                    r.status == SuggestStatus::ParseErrors && r.gap is None
                } else {
                    exists|ds: Seq<DiagView>| analysis_diags(f, ds) && report_view(r) == spec_suggest(f, ds)
                }
            },
{
    let pr = crate::parser::parse(source);
    if has_errors(&pr.diagnostics) {
        let r = SuggestReport { status: SuggestStatus::ParseErrors, gap: None };
        assert(crate::ast::file_ok(source.spec_bytes(), pr.file));
        return r;
    }
    let r = suggest(&pr.file);
    assert(crate::ast::file_ok(source.spec_bytes(), pr.file));
    r
}

// ---------------------------------------------------------------------------
// Laws
// ---------------------------------------------------------------------------

/// `t` occurs in `s`.
pub open spec fn has_text(s: Seq<char>, t: Seq<char>) -> bool {
    exists|i: int| 0 <= i && i + t.len() <= s.len() && #[trigger] s.subrange(i, i + t.len()) == t
}

proof fn lemma_has_text_mid(a: Seq<char>, t: Seq<char>, b: Seq<char>)
    ensures
        has_text(a + t + b, t),
{
    assert((a + t + b).subrange(a.len() as int, (a.len() + t.len()) as int) =~= t);
}

/// The post_failure template suggested for a `transactional` or
/// `db_transaction` event (the atomicities for which the symmetric-failure
/// pass asks for a rollback pair) declares both halves of the pair,
/// `cells_after_pre_rollback` and `cells_after_rollback`; for any other
/// atomicity it declares a plain `cells_after` block.
pub proof fn law_post_failure_template_meets_rollback_rule(event: Seq<char>, step: Seq<char>, atomicity: Seq<char>)
    ensures
        (atomicity == "transactional"@ || atomicity == "db_transaction"@) ==> has_text(
            spec_post_failure_template(event, step, atomicity),
            "cells_after_pre_rollback {"@,
        ) && has_text(spec_post_failure_template(event, step, atomicity), "cells_after_rollback {"@),
        !(atomicity == "transactional"@ || atomicity == "db_transaction"@) ==> has_text(
            spec_post_failure_template(event, step, atomicity),
            "cells_after {"@,
        ),
{
    let pre = "  post_failure pf_"@ + event + "_"@ + step + "_fail {\n    event: "@ + event + "\n    step: "@ + step
        + "\n    outcome: \"Err(<failure-mode>)\"\n"@;
    let suf = "    result: rejected\n  }\n"@;
    reveal_strlit("transactional");
    reveal_strlit("db_transaction");
    if atomicity == "transactional"@ || atomicity == "db_transaction"@ {
        let t1 = "cells_after_pre_rollback {"@;
        let t2 = "cells_after_rollback {"@;
        let m = "\n      // <cell-id>: <value-after-step-committed-but-before-rollback>\n    }\n    "@;
        let e = "\n      // <cell-id>: <value-after-rollback-restores-pre-event-state>\n    }\n"@;
        reveal_strlit("cells_after_pre_rollback {");
        reveal_strlit("cells_after_rollback {");
        reveal_strlit("\n      // <cell-id>: <value-after-step-committed-but-before-rollback>\n    }\n    ");
        reveal_strlit("\n      // <cell-id>: <value-after-rollback-restores-pre-event-state>\n    }\n");
        reveal_strlit("    ");
        reveal_strlit(
            "    cells_after_pre_rollback {\n      // <cell-id>: <value-after-step-committed-but-before-rollback>\n    }\n    cells_after_rollback {\n      // <cell-id>: <value-after-rollback-restores-pre-event-state>\n    }\n",
        );
        assert(spec_cells_block(atomicity) =~= "    "@ + t1 + m + t2 + e);
        assert(spec_post_failure_template(event, step, atomicity) =~= (pre + "    "@) + t1 + (m + t2 + e + suf));
        lemma_has_text_mid(pre + "    "@, t1, m + t2 + e + suf);
        assert(spec_post_failure_template(event, step, atomicity) =~= (pre + "    "@ + t1 + m) + t2 + (e + suf));
        lemma_has_text_mid(pre + "    "@ + t1 + m, t2, e + suf);
    } else {
        let t = "cells_after {"@;
        let e = "\n      // <cell-id>: <value-after-failure>\n    }\n"@;
        reveal_strlit("cells_after {");
        reveal_strlit("\n      // <cell-id>: <value-after-failure>\n    }\n");
        reveal_strlit("    ");
        reveal_strlit("    cells_after {\n      // <cell-id>: <value-after-failure>\n    }\n");
        assert(spec_cells_block(atomicity) =~= "    "@ + t + e);
        assert(spec_post_failure_template(event, step, atomicity) =~= (pre + "    "@) + t + (e + suf));
        lemma_has_text_mid(pre + "    "@, t, e + suf);
    }
}

} // verus!
