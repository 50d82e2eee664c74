//! Per-walk diff (`memspec diff --from N --to M`).
//!
//! Reads the inline provenance fields of each clause (`walk_added`,
//! `walk_changed`, `walk_killed`, `walk_superseded`) and reports what
//! happened in the half-open walk range `(from, to]`. A clause without
//! `walk_added` counts as added in the slice's default walk: the highest
//! `walk N` block, or 1 when there is none. The file is the history; no
//! reconstruction is attempted.

use vstd::prelude::*;

use crate::analysis::index::{is_named, item_name};
use crate::analysis::nav::{block_name_str, field_value, kind_is, spec_block_name_ident, spec_field_value};
use crate::analysis::query::opt_str;
use crate::ast::{BlockDecl, BlockItem, BlockName, FieldValue, File};
use crate::span::Span;
use crate::text::{i64_text, int_text, is_lit, owned};

verus! {

pub struct DiffReport {
    pub slice: Option<String>,
    pub from: i64,
    pub to: i64,
    pub walks_in_range: Vec<WalkSummary>,
    pub added: Vec<DiffEntry>,
    pub changed: Vec<DiffEntry>,
    pub killed: Vec<DiffEntry>,
    pub superseded: Vec<DiffEntry>,
    pub steps_added: Vec<DiffEntry>,
}

pub struct DiffEntry {
    pub kind: String,
    pub id: String,
    pub walk: i64,
    pub span: Span,
    /// For step entries: the parent event's id.
    pub parent: Option<String>,
}

pub struct WalkSummary {
    pub walk: i64,
    pub summary: Option<String>,
}

/// A diff entry as plain values: kind, id, walk, span, parent.
pub type EntryView = (Seq<char>, Seq<char>, i64, Span, Option<Seq<char>>);

pub open spec fn entry_view(e: DiffEntry) -> EntryView {
    (e.kind@, e.id@, e.walk, e.span, opt_str(e.parent))
}

pub open spec fn entry_views(v: Seq<DiffEntry>) -> Seq<EntryView> {
    v.map_values(|e: DiffEntry| entry_view(e))
}

pub open spec fn summary_views(v: Seq<WalkSummary>) -> Seq<(i64, Option<Seq<char>>)> {
    v.map_values(|w: WalkSummary| (w.walk, opt_str(w.summary)))
}

/// `walk` lies in `(from, to]`.
pub open spec fn spec_in_range(walk: i64, from: i64, to: i64) -> bool {
    walk > from && walk <= to
}

/// The slot kinds that carry provenance.
pub open spec fn is_slot_kind(k: Seq<char>) -> bool {
    k == "cell"@ || k == "derived"@ || k == "association"@ || k == "event"@ || k == "post_failure"@
        || k == "forbidden_state"@ || k == "kill_test"@
}

/// The integer value of the block's `key:` field, if it is an integer.
pub open spec fn spec_explicit_walk(b: BlockDecl, key: Seq<char>) -> Option<i64> {
    match spec_field_value(b, key) {
        Some(FieldValue::Int { value, .. }) => Some(value),
        _ => None,
    }
}

/// The highest `walk N` number declared, if any.
pub open spec fn max_walk(items: Seq<BlockItem>) -> Option<i64>
    decreases items.len(),
{
    if items.len() == 0 {
        None
    } else {
        let rest = max_walk(items.drop_last());
        match items.last() {
            BlockItem::Block(b) => if b.kind.name@ == "walk"@ {
                match b.name {
                    Some(BlockName::Int { value, .. }) => match rest {
                        Some(m) => Some(if m >= value { m } else { value }),
                        None => Some(value),
                    },
                    _ => rest,
                }
            } else {
                rest
            },
            _ => rest,
        }
    }
}

/// The walk a clause without `walk_added` is attributed to.
pub open spec fn default_walk(items: Seq<BlockItem>) -> i64 {
    match max_walk(items) {
        Some(m) => m,
        None => 1,
    }
}

/// A block's id, `<anon>` when it has no identifier name.
pub open spec fn id_or_anon(b: BlockDecl) -> Seq<char> {
    match spec_block_name_ident(b) {
        Some(i) => i.name@,
        None => "<anon>"@,
    }
}

/// What a top-level item contributes to the list driven by the provenance
/// field `key`; `dflt` is the walk used when the field is absent (`None`:
/// the clause is then left out).
pub open spec fn prov_item(it: BlockItem, key: Seq<char>, from: i64, to: i64, dflt: Option<i64>) -> Seq<EntryView> {
    match it {
        BlockItem::Block(b) => if is_slot_kind(b.kind.name@) {
            let w = match spec_explicit_walk(b, key) {
                Some(w) => Some(w),
                None => dflt,
            };
            match w {
                Some(w) => if spec_in_range(w, from, to) {
                    seq![(b.kind.name@, id_or_anon(b), w, b.span, None)]
                } else {
                    seq![]
                },
                None => seq![],
            }
        } else {
            seq![]
        },
        _ => seq![],
    }
}

pub open spec fn prov_upto(items: Seq<BlockItem>, n: int, key: Seq<char>, from: i64, to: i64, dflt: Option<i64>) -> Seq<
    EntryView,
>
    decreases n,
{
    if n <= 0 {
        seq![]
    } else {
        prov_upto(items, n - 1, key, from, to, dflt) + prov_item(items[n - 1], key, from, to, dflt)
    }
}

/// A step block of an event, when it was added in range.
pub open spec fn step_entry(it: BlockItem, parent: Seq<char>, from: i64, to: i64, dw: i64) -> Seq<EntryView> {
    match it {
        BlockItem::Block(st) => if st.kind.name@ == "step"@ {
            let w = match spec_explicit_walk(st, "walk_added"@) {
                Some(w) => w,
                None => dw,
            };
            if spec_in_range(w, from, to) {
                seq![("step"@, id_or_anon(st), w, st.span, Some(parent))]
            } else {
                seq![]
            }
        } else {
            seq![]
        },
        _ => seq![],
    }
}

/// Steps of an event added in range, in order.
pub open spec fn event_steps(inner: Seq<BlockItem>, parent: Seq<char>, from: i64, to: i64, dw: i64) -> Seq<EntryView>
    decreases inner.len(),
{
    if inner.len() == 0 {
        seq![]
    } else {
        event_steps(inner.drop_last(), parent, from, to, dw) + step_entry(inner.last(), parent, from, to, dw)
    }
}

pub open spec fn steps_item(it: BlockItem, from: i64, to: i64, dw: i64) -> Seq<EntryView> {
    match it {
        BlockItem::Block(b) => if b.kind.name@ == "event"@ {
            event_steps(b.items@, id_or_anon(b), from, to, dw)
        } else {
            seq![]
        },
        _ => seq![],
    }
}

pub open spec fn steps_upto(items: Seq<BlockItem>, n: int, from: i64, to: i64, dw: i64) -> Seq<EntryView>
    decreases n,
{
    if n <= 0 {
        seq![]
    } else {
        steps_upto(items, n - 1, from, to, dw) + steps_item(items[n - 1], from, to, dw)
    }
}

/// The block's `key:` string value, if it is a string.
pub open spec fn spec_string_field(b: BlockDecl, key: Seq<char>) -> Option<Seq<char>> {
    match spec_field_value(b, key) {
        Some(FieldValue::String { value, .. }) => Some(value@),
        _ => None,
    }
}

pub open spec fn walk_item(it: BlockItem, from: i64, to: i64) -> Seq<(i64, Option<Seq<char>>)> {
    match it {
        BlockItem::Block(b) => if b.kind.name@ == "walk"@ {
            match b.name {
                Some(BlockName::Int { value, .. }) => if spec_in_range(value, from, to) {
                    seq![(value, spec_string_field(b, "summary"@))]
                } else {
                    seq![]
                },
                _ => seq![],
            }
        } else {
            seq![]
        },
        _ => seq![],
    }
}

pub open spec fn walks_upto(items: Seq<BlockItem>, n: int, from: i64, to: i64) -> Seq<(i64, Option<Seq<char>>)>
    decreases n,
{
    if n <= 0 {
        seq![]
    } else {
        walks_upto(items, n - 1, from, to) + walk_item(items[n - 1], from, to)
    }
}

/// The message of a refused range.
pub open spec fn range_error(from: i64, to: i64) -> Seq<char> {
    "invalid range: from="@ + int_text(from as int) + " > to="@ + int_text(to as int)
}

/// `walk` lies in the half-open range `(from, to]`.
fn in_range(walk: i64, from: i64, to: i64) -> (r: bool)
    ensures
        r == spec_in_range(walk, from, to),
{
    walk > from && walk <= to
}

fn is_slot_kind_exec(k: &String) -> (r: bool)
    ensures
        r == is_slot_kind(k@),
{
    is_lit(k, "cell") || is_lit(k, "derived") || is_lit(k, "association") || is_lit(k, "event") || is_lit(
        k,
        "post_failure",
    ) || is_lit(k, "forbidden_state") || is_lit(k, "kill_test")
}

/// The highest `walk N` number declared, if any.
fn slice_default_walk(items: &Vec<BlockItem>) -> (r: Option<i64>)
    ensures
        r == max_walk(items@),
{
    let mut max: Option<i64> = None;
    let mut i: usize = 0;
    while i < items.len()
        invariant
            i <= items@.len(),
            max == max_walk(items@.subrange(0, i as int)),
        decreases items@.len() - i,
    {
        proof {
            assert(items@.subrange(0, i as int + 1).drop_last() =~= items@.subrange(0, i as int));
        }
        match &items[i] {
            BlockItem::Block(b) => {
                if kind_is(b, "walk") {
                    match &b.name {
                        Some(BlockName::Int { value, .. }) => {
                            max = match max {
                                Some(m) => Some(if m >= *value { m } else { *value }),
                                None => Some(*value),
                            };
                        },
                        _ => {},
                    }
                }
            },
            _ => {},
        }
        i = i + 1;
    }
    assert(items@.subrange(0, items@.len() as int) =~= items@);
    max
}

fn explicit_walk(block: &BlockDecl, key: &str) -> (r: Option<i64>)
    ensures
        r == spec_explicit_walk(*block, key@),
{
    match field_value(block, key) {
        Some(FieldValue::Int { value, .. }) => Some(*value),
        _ => None,
    }
}

fn clause_walk(block: &BlockDecl, key: &str, default: i64) -> (r: i64)
    ensures
        r == match spec_explicit_walk(*block, key@) {
            Some(w) => w,
            None => default,
        },
{
    match explicit_walk(block, key) {
        Some(w) => w,
        None => default,
    }
}

fn string_field(block: &BlockDecl, key: &str) -> (r: Option<String>)
    ensures
        opt_str(r) == spec_string_field(*block, key@),
{
    match field_value(block, key) {
        Some(FieldValue::String { value, .. }) => Some(owned(value.as_str())),
        _ => None,
    }
}

fn id_text(b: &BlockDecl) -> (r: String)
    ensures
        r@ == id_or_anon(*b),
{
    match block_name_str(b) {
        Some(n) => owned(n),
        None => owned("<anon>"),
    }
}

fn push_prov(out: &mut Vec<DiffEntry>, it: &BlockItem, key: &str, from: i64, to: i64, dflt: Option<i64>)
    ensures
        entry_views(final(out)@) == entry_views(old(out)@) + prov_item(*it, key@, from, to, dflt),
{
    match it {
        BlockItem::Block(b) => {
            if is_slot_kind_exec(&b.kind.name) {
                let w = match explicit_walk(b, key) {
                    Some(w) => Some(w),
                    None => dflt,
                };
                match w {
                    Some(w) => {
                        if in_range(w, from, to) {
                            out.push(
                                DiffEntry {
                                    kind: owned(b.kind.name.as_str()),
                                    id: id_text(b),
                                    walk: w,
                                    span: b.span,
                                    parent: None,
                                },
                            );
                        }
                    },
                    None => {},
                }
            }
        },
        _ => {},
    }
    assert(entry_views(out@) =~= entry_views(old(out)@) + prov_item(*it, key@, from, to, dflt));
}

fn push_steps(out: &mut Vec<DiffEntry>, it: &BlockItem, from: i64, to: i64, dw: i64)
    ensures
        entry_views(final(out)@) == entry_views(old(out)@) + steps_item(*it, from, to, dw),
{
    let b = match it {
        BlockItem::Block(b) => b,
        _ => {
            assert(entry_views(out@) =~= entry_views(old(out)@) + steps_item(*it, from, to, dw));
            return;
        },
    };
    if !kind_is(b, "event") {
        assert(entry_views(out@) =~= entry_views(old(out)@) + steps_item(*it, from, to, dw));
        return;
    }
    let event_id = id_text(b);
    let inner = &b.items;
    let mut k: usize = 0;
    assert(entry_views(out@) =~= entry_views(old(out)@) + event_steps(inner@.subrange(0, 0), event_id@, from, to, dw));
    while k < inner.len()
        invariant
            k <= inner@.len(),
            inner@ == b.items@,
            event_id@ == id_or_anon(*b),
            entry_views(out@) == entry_views(old(out)@) + event_steps(
                inner@.subrange(0, k as int),
                event_id@,
                from,
                to,
                dw,
            ),
        decreases inner@.len() - k,
    {
        proof {
            assert(inner@.subrange(0, k as int + 1).drop_last() =~= inner@.subrange(0, k as int));
        }
        push_step_entry(out, &inner[k], event_id.as_str(), from, to, dw);
        k = k + 1;
    }
    assert(inner@.subrange(0, inner@.len() as int) =~= inner@);
}

fn push_step_entry(out: &mut Vec<DiffEntry>, it: &BlockItem, parent: &str, from: i64, to: i64, dw: i64)
    ensures
        entry_views(final(out)@) == entry_views(old(out)@) + step_entry(*it, parent@, from, to, dw),
{
    match it {
        BlockItem::Block(step) => {
            if kind_is(step, "step") {
                let w = clause_walk(step, "walk_added", dw);
                if in_range(w, from, to) {
                    out.push(
                        DiffEntry {
                            kind: owned("step"),
                            id: id_text(step),
                            walk: w,
                            span: step.span,
                            parent: Some(owned(parent)),
                        },
                    );
                }
            }
        },
        _ => {},
    }
    assert(entry_views(out@) =~= entry_views(old(out)@) + step_entry(*it, parent@, from, to, dw));
}

fn push_walk_summary(out: &mut Vec<WalkSummary>, it: &BlockItem, from: i64, to: i64)
    ensures
        summary_views(final(out)@) == summary_views(old(out)@) + walk_item(*it, from, to),
{
    match it {
        BlockItem::Block(b) => {
            if kind_is(b, "walk") {
                match &b.name {
                    Some(BlockName::Int { value, .. }) => {
                        if in_range(*value, from, to) {
                            out.push(WalkSummary { walk: *value, summary: string_field(b, "summary") });
                        }
                    },
                    _ => {},
                }
            }
        },
        _ => {},
    }
    assert(summary_views(out@) =~= summary_views(old(out)@) + walk_item(*it, from, to));
}

/// What happened in the walk range `(from, to]`. A range with `from > to`
/// is refused with a message naming both ends.
pub fn diff(file: &File, from: i64, to: i64) -> (r: Result<DiffReport, String>)
    ensures
        match r {
            Err(e) => from > to && e@ == range_error(from, to),
            Ok(rep) => {
                &&& from <= to
                &&& rep.from == from && rep.to == to
                &&& match file.slice {
                    None => {
                        &&& rep.slice is None
                        &&& rep.walks_in_range@.len() == 0 && rep.added@.len() == 0 && rep.changed@.len() == 0
                        &&& rep.killed@.len() == 0 && rep.superseded@.len() == 0 && rep.steps_added@.len() == 0
                    },
                    Some(s) => {
                        let items = s.items@;
                        let n = items.len() as int;
                        let dw = default_walk(items);
                        &&& opt_str(rep.slice) == Some(s.name.name@)
                        &&& summary_views(rep.walks_in_range@) == walks_upto(items, n, from, to)
                        &&& entry_views(rep.added@) == prov_upto(items, n, "walk_added"@, from, to, Some(dw))
                        &&& entry_views(rep.changed@) == prov_upto(items, n, "walk_changed"@, from, to, None)
                        &&& entry_views(rep.killed@) == prov_upto(items, n, "walk_killed"@, from, to, None)
                        &&& entry_views(rep.superseded@) == prov_upto(items, n, "walk_superseded"@, from, to, None)
                        &&& entry_views(rep.steps_added@) == steps_upto(items, n, from, to, dw)
                    },
                }
            },
        },
{
    if from > to {
        let mut msg = owned("invalid range: from=");
        let f = i64_text(from);
        msg.append(f.as_str());
        msg.append(" > to=");
        let t = i64_text(to);
        msg.append(t.as_str());
        return Err(msg);
    }
    let mut report = DiffReport {
        slice: None,
        from,
        to,
        walks_in_range: Vec::new(),
        added: Vec::new(),
        changed: Vec::new(),
        killed: Vec::new(),
        superseded: Vec::new(),
        steps_added: Vec::new(),
    };
    let slice = match &file.slice {
        Some(s) => s,
        None => return Ok(report),
    };
    let items = &slice.items;
    let default_walk: i64 = match slice_default_walk(items) {
        Some(m) => m,
        None => 1,
    };
    report.slice = Some(owned(slice.name.name.as_str()));
    let mut i: usize = 0;
    while i < items.len()
        invariant
            i <= items@.len(),
            items@ == slice.items@,
            default_walk == crate::analysis::diff::default_walk(items@),
            report.from == from && report.to == to && from <= to,
            opt_str(report.slice) == Some(slice.name.name@),
            summary_views(report.walks_in_range@) == walks_upto(items@, i as int, from, to),
            entry_views(report.added@) == prov_upto(items@, i as int, "walk_added"@, from, to, Some(default_walk)),
            entry_views(report.changed@) == prov_upto(items@, i as int, "walk_changed"@, from, to, None),
            entry_views(report.killed@) == prov_upto(items@, i as int, "walk_killed"@, from, to, None),
            entry_views(report.superseded@) == prov_upto(items@, i as int, "walk_superseded"@, from, to, None),
            entry_views(report.steps_added@) == steps_upto(items@, i as int, from, to, default_walk),
        decreases items@.len() - i,
    {
        let it = &items[i];
        push_walk_summary(&mut report.walks_in_range, it, from, to);
        push_prov(&mut report.added, it, "walk_added", from, to, Some(default_walk));
        push_prov(&mut report.changed, it, "walk_changed", from, to, None);
        push_prov(&mut report.killed, it, "walk_killed", from, to, None);
        push_prov(&mut report.superseded, it, "walk_superseded", from, to, None);
        push_steps(&mut report.steps_added, it, from, to, default_walk);
        i = i + 1;
    }
    Ok(report)
}

// ---------------------------------------------------------------------------
// Laws
// ---------------------------------------------------------------------------

proof fn lemma_event_steps_member(inner: Seq<BlockItem>, parent: Seq<char>, from: i64, to: i64, dw: i64, v: EntryView)
    ensures
        event_steps(inner, parent, from, to, dw).contains(v) <==> exists|j: int|
            0 <= j < inner.len() && #[trigger] step_entry(inner[j], parent, from, to, dw).contains(v),
    decreases inner.len(),
{
    if inner.len() > 0 {
        let rest = inner.drop_last();
        lemma_event_steps_member(rest, parent, from, to, dw, v);
        crate::text::lemma_concat_contains(
            event_steps(rest, parent, from, to, dw),
            step_entry(inner.last(), parent, from, to, dw),
            v,
        );
        if exists|j: int| 0 <= j < inner.len() && #[trigger] step_entry(inner[j], parent, from, to, dw).contains(v) {
            let j = choose|j: int| 0 <= j < inner.len() && #[trigger] step_entry(inner[j], parent, from, to, dw).contains(v);
            if j < inner.len() - 1 {
                assert(rest[j] == inner[j]);
            }
        }
        if exists|j: int| 0 <= j < rest.len() && #[trigger] step_entry(rest[j], parent, from, to, dw).contains(v) {
            let j = choose|j: int| 0 <= j < rest.len() && #[trigger] step_entry(rest[j], parent, from, to, dw).contains(v);
            assert(rest[j] == inner[j]);
        }
    }
}

proof fn lemma_steps_upto_member(items: Seq<BlockItem>, n: int, from: i64, to: i64, dw: i64, v: EntryView)
    requires
        0 <= n <= items.len(),
    ensures
        steps_upto(items, n, from, to, dw).contains(v) <==> exists|i: int|
            0 <= i < n && #[trigger] steps_item(items[i], from, to, dw).contains(v),
    decreases n,
{
    if n > 0 {
        lemma_steps_upto_member(items, n - 1, from, to, dw, v);
        crate::text::lemma_concat_contains(steps_upto(items, n - 1, from, to, dw), steps_item(items[n - 1], from, to, dw), v);
    }
}

/// The walk a step is attributed to: its own integer `walk_added:`, else
/// the slice's default walk.
pub open spec fn walk_of_step(st: BlockDecl, dw: i64) -> i64 {
    match spec_field_value(st, "walk_added"@) {
        Some(FieldValue::Int { value, .. }) => value,
        _ => dw,
    }
}

/// The entry a step of event `ev` gets when its walk is in range.
pub open spec fn step_listing(ev: BlockDecl, st: BlockDecl, dw: i64) -> EntryView {
    ("step"@, id_or_anon(st), walk_of_step(st, dw), st.span, Some(id_or_anon(ev)))
}

/// Item `j` of item `i` is a step block of an event block.
pub open spec fn is_event_step(items: Seq<BlockItem>, i: int, j: int) -> bool {
    &&& 0 <= i < items.len()
    &&& items[i] is Block
    &&& items[i]->Block_0.kind.name@ == "event"@
    &&& 0 <= j < items[i]->Block_0.items@.len()
    &&& items[i]->Block_0.items@[j] is Block
    &&& items[i]->Block_0.items@[j]->Block_0.kind.name@ == "step"@
}

/// The step block at `(i, j)`.
pub open spec fn step_block_at(items: Seq<BlockItem>, i: int, j: int) -> BlockDecl {
    items[i]->Block_0.items@[j]->Block_0
}

/// `v` is the listing of some step of an event whose walk lies in range.
pub open spec fn listed_step(items: Seq<BlockItem>, from: i64, to: i64, v: EntryView) -> bool {
    exists|i: int, j: int|
        #[trigger] is_event_step(items, i, j) && spec_in_range(
            walk_of_step(step_block_at(items, i, j), default_walk(items)),
            from,
            to,
        ) && v == step_listing(items[i]->Block_0, step_block_at(items, i, j), default_walk(items))
}

/// Added steps are decided by each step's own `walk_added:`: every entry of
/// `steps_added` is a step of some event, listed under the step's own
/// integer `walk_added` (the slice's default walk only when the step has
/// none), and that walk lies in `(from, to]`; and every step of an event
/// whose walk so decided lies in `(from, to]` is listed.
pub proof fn law_step_walk_is_its_own(file: File, from: i64, to: i64, rep: DiffReport)
    requires
        file.slice is Some,
        entry_views(rep.steps_added@) == steps_upto(
            file.slice->0.items@,
            file.slice->0.items@.len() as int,
            from,
            to,
            default_walk(file.slice->0.items@),
        ),
    ensures
        forall|k: int|
            0 <= k < rep.steps_added@.len() ==> #[trigger] listed_step(
                file.slice->0.items@,
                from,
                to,
                entry_view(rep.steps_added@[k]),
            ),
        forall|i: int, j: int|
            #[trigger] is_event_step(file.slice->0.items@, i, j) && spec_in_range(
                walk_of_step(step_block_at(file.slice->0.items@, i, j), default_walk(file.slice->0.items@)),
                from,
                to,
            ) ==> entry_views(rep.steps_added@).contains(
                step_listing(
                    file.slice->0.items@[i]->Block_0,
                    step_block_at(file.slice->0.items@, i, j),
                    default_walk(file.slice->0.items@),
                ),
            ),
{
    let items = file.slice->0.items@;
    let dw = default_walk(items);
    let n = items.len() as int;
    let vs = entry_views(rep.steps_added@);
    assert forall|i: int, j: int|
        #[trigger] is_event_step(items, i, j) && spec_in_range(walk_of_step(step_block_at(items, i, j), dw), from, to)
            implies vs.contains(step_listing(items[i]->Block_0, step_block_at(items, i, j), dw)) by {
        let ev = items[i]->Block_0;
        let st = ev.items@[j]->Block_0;
        let v = step_listing(ev, st, dw);
        assert(step_entry(ev.items@[j], id_or_anon(ev), from, to, dw) =~= seq![v]);
        assert(step_entry(ev.items@[j], id_or_anon(ev), from, to, dw)[0] == v);
        assert(step_entry(ev.items@[j], id_or_anon(ev), from, to, dw).contains(v));
        lemma_event_steps_member(ev.items@, id_or_anon(ev), from, to, dw, v);
        assert(event_steps(ev.items@, id_or_anon(ev), from, to, dw).contains(v));
        assert(steps_item(items[i], from, to, dw).contains(v));
        lemma_steps_upto_member(items, n, from, to, dw, v);
    }
    assert forall|k: int| 0 <= k < rep.steps_added@.len() implies #[trigger] listed_step(
        file.slice->0.items@,
        from,
        to,
        entry_view(rep.steps_added@[k]),
    ) by {
        let v = entry_view(rep.steps_added@[k]);
        assert(vs[k] == v);
        assert(vs.contains(v));
        lemma_steps_upto_member(items, n, from, to, dw, v);
        let i = choose|i: int| 0 <= i < n && #[trigger] steps_item(items[i], from, to, dw).contains(v);
        let ev = items[i]->Block_0;
        lemma_event_steps_member(ev.items@, id_or_anon(ev), from, to, dw, v);
        let j = choose|j: int| 0 <= j < ev.items@.len() && #[trigger] step_entry(ev.items@[j], id_or_anon(ev), from, to, dw).contains(v);
        let st = ev.items@[j]->Block_0;
        assert(step_entry(ev.items@[j], id_or_anon(ev), from, to, dw)[0] == v);
        assert(v == step_listing(ev, st, dw));
        assert(is_event_step(items, i, j));
    }
}

proof fn lemma_prov_upto_member(
    items: Seq<BlockItem>,
    n: int,
    key: Seq<char>,
    from: i64,
    to: i64,
    dflt: Option<i64>,
    v: EntryView,
)
    requires
        0 <= n <= items.len(),
    ensures
        prov_upto(items, n, key, from, to, dflt).contains(v) <==> exists|i: int|
            0 <= i < n && #[trigger] prov_item(items[i], key, from, to, dflt).contains(v),
    decreases n,
{
    if n > 0 {
        lemma_prov_upto_member(items, n - 1, key, from, to, dflt, v);
        crate::text::lemma_concat_contains(
            prov_upto(items, n - 1, key, from, to, dflt),
            prov_item(items[n - 1], key, from, to, dflt),
            v,
        );
    }
}

/// The walk a top-level clause is attributed to for the provenance field
/// `key`: its own integer value of that field, else `dflt`.
pub open spec fn walk_of_clause(b: BlockDecl, key: Seq<char>, dflt: Option<i64>) -> Option<i64> {
    match spec_field_value(b, key) {
        Some(FieldValue::Int { value, .. }) => Some(value),
        _ => dflt,
    }
}

/// Item `i` is a top-level slot block whose walk for `key` lies in range.
pub open spec fn clause_in_range(items: Seq<BlockItem>, i: int, key: Seq<char>, from: i64, to: i64, dflt: Option<i64>) -> bool {
    &&& 0 <= i < items.len()
    &&& items[i] is Block
    &&& is_slot_kind(items[i]->Block_0.kind.name@)
    &&& walk_of_clause(items[i]->Block_0, key, dflt) matches Some(w) && spec_in_range(w, from, to)
}

/// The entry clause `i` gets.
pub open spec fn clause_listing(items: Seq<BlockItem>, i: int, key: Seq<char>, dflt: Option<i64>) -> EntryView {
    let b = items[i]->Block_0;
    (b.kind.name@, id_or_anon(b), walk_of_clause(b, key, dflt)->0, b.span, None)
}

/// `v` is the listing of some clause in range.
pub open spec fn listed_clause(items: Seq<BlockItem>, key: Seq<char>, from: i64, to: i64, dflt: Option<i64>, v: EntryView) -> bool {
    exists|i: int| #[trigger] clause_in_range(items, i, key, from, to, dflt) && v == clause_listing(items, i, key, dflt)
}

/// A provenance list holds exactly the slot clauses whose own integer
/// value of the field (else the default, when there is one) lies in
/// `(from, to]`, each under that walk.
pub proof fn law_provenance_list(items: Seq<BlockItem>, key: Seq<char>, from: i64, to: i64, dflt: Option<i64>, es: Seq<DiffEntry>)
    requires
        entry_views(es) == prov_upto(items, items.len() as int, key, from, to, dflt),
    ensures
        forall|k: int| 0 <= k < es.len() ==> #[trigger] listed_clause(items, key, from, to, dflt, entry_view(es[k])),
        forall|i: int|
            #[trigger] clause_in_range(items, i, key, from, to, dflt) ==> entry_views(es).contains(
                clause_listing(items, i, key, dflt),
            ),
{
    let n = items.len() as int;
    let vs = entry_views(es);
    assert forall|k: int| 0 <= k < es.len() implies #[trigger] listed_clause(items, key, from, to, dflt, entry_view(es[k])) by {
        let v = entry_view(es[k]);
        assert(vs[k] == v);
        assert(vs.contains(v));
        lemma_prov_upto_member(items, n, key, from, to, dflt, v);
        let i = choose|i: int| 0 <= i < n && #[trigger] prov_item(items[i], key, from, to, dflt).contains(v);
        assert(prov_item(items[i], key, from, to, dflt)[0] == v);
        assert(clause_in_range(items, i, key, from, to, dflt));
    }
    assert forall|i: int| #[trigger] clause_in_range(items, i, key, from, to, dflt) implies vs.contains(
        clause_listing(items, i, key, dflt),
    ) by {
        let v = clause_listing(items, i, key, dflt);
        assert(prov_item(items[i], key, from, to, dflt) =~= seq![v]);
        assert(prov_item(items[i], key, from, to, dflt)[0] == v);
        assert(prov_item(items[i], key, from, to, dflt).contains(v));
        lemma_prov_upto_member(items, n, key, from, to, dflt, v);
    }
}

/// The diff's clause lists follow each clause's own provenance fields:
/// `added` by `walk_added` (the slice's default walk when absent),
/// `changed`, `killed` and `superseded` by `walk_changed`, `walk_killed`
/// and `walk_superseded` (clauses without the field are left out).
pub proof fn law_clause_lists_follow_provenance(file: File, from: i64, to: i64, rep: DiffReport)
    requires
        file.slice is Some,
        ({
            let items = file.slice->0.items@;
            let n = items.len() as int;
            &&& entry_views(rep.added@) == prov_upto(items, n, "walk_added"@, from, to, Some(default_walk(items)))
            &&& entry_views(rep.changed@) == prov_upto(items, n, "walk_changed"@, from, to, None)
            &&& entry_views(rep.killed@) == prov_upto(items, n, "walk_killed"@, from, to, None)
            &&& entry_views(rep.superseded@) == prov_upto(items, n, "walk_superseded"@, from, to, None)
        }),
    ensures
        forall|k: int|
            0 <= k < rep.added@.len() ==> #[trigger] listed_clause(
                file.slice->0.items@,
                "walk_added"@,
                from,
                to,
                Some(default_walk(file.slice->0.items@)),
                entry_view(rep.added@[k]),
            ),
        forall|i: int|
            #[trigger] clause_in_range(file.slice->0.items@, i, "walk_added"@, from, to, Some(default_walk(file.slice->0.items@)))
                ==> entry_views(rep.added@).contains(
                clause_listing(file.slice->0.items@, i, "walk_added"@, Some(default_walk(file.slice->0.items@))),
            ),
        forall|k: int|
            0 <= k < rep.changed@.len() ==> #[trigger] listed_clause(
                file.slice->0.items@,
                "walk_changed"@,
                from,
                to,
                None,
                entry_view(rep.changed@[k]),
            ),
        forall|i: int|
            #[trigger] clause_in_range(file.slice->0.items@, i, "walk_changed"@, from, to, None) ==> entry_views(
                rep.changed@,
            ).contains(clause_listing(file.slice->0.items@, i, "walk_changed"@, None)),
        forall|k: int|
            0 <= k < rep.killed@.len() ==> #[trigger] listed_clause(
                file.slice->0.items@,
                "walk_killed"@,
                from,
                to,
                None,
                entry_view(rep.killed@[k]),
            ),
        forall|i: int|
            #[trigger] clause_in_range(file.slice->0.items@, i, "walk_killed"@, from, to, None) ==> entry_views(
                rep.killed@,
            ).contains(clause_listing(file.slice->0.items@, i, "walk_killed"@, None)),
        forall|k: int|
            0 <= k < rep.superseded@.len() ==> #[trigger] listed_clause(
                file.slice->0.items@,
                "walk_superseded"@,
                from,
                to,
                None,
                entry_view(rep.superseded@[k]),
            ),
        forall|i: int|
            #[trigger] clause_in_range(file.slice->0.items@, i, "walk_superseded"@, from, to, None) ==> entry_views(
                rep.superseded@,
            ).contains(clause_listing(file.slice->0.items@, i, "walk_superseded"@, None)),
{
    let items = file.slice->0.items@;
    law_provenance_list(items, "walk_added"@, from, to, Some(default_walk(items)), rep.added@);
    law_provenance_list(items, "walk_changed"@, from, to, None, rep.changed@);
    law_provenance_list(items, "walk_killed"@, from, to, None, rep.killed@);
    law_provenance_list(items, "walk_superseded"@, from, to, None, rep.superseded@);
}

/// Item `i` is a `walk N` block and `v` its number.
pub open spec fn walk_number_at(items: Seq<BlockItem>, i: int, v: i64) -> bool {
    &&& 0 <= i < items.len()
    &&& items[i] is Block
    &&& items[i]->Block_0.kind.name@ == "walk"@
    &&& items[i]->Block_0.name matches Some(BlockName::Int { value, .. }) && value == v
}

proof fn lemma_max_walk(items: Seq<BlockItem>)
    ensures
        forall|i: int, v: i64| #[trigger] walk_number_at(items, i, v) ==> (max_walk(items) matches Some(m) && v <= m),
        max_walk(items) is Some ==> exists|i: int| #[trigger] walk_number_at(items, i, max_walk(items)->0),
        max_walk(items) is None ==> forall|i: int, v: i64| !#[trigger] walk_number_at(items, i, v),
    decreases items.len(),
{
    if items.len() > 0 {
        let rest = items.drop_last();
        lemma_max_walk(rest);
        assert forall|i: int, v: i64| #[trigger] walk_number_at(items, i, v) && i < items.len() - 1 implies walk_number_at(
            rest,
            i,
            v,
        ) by {
            assert(rest[i] == items[i]);
        }
        let last = items.len() - 1;
        assert(items.last() == items[last]);
        if items[last] is Block && items[last]->Block_0.kind.name@ == "walk"@ && (items[last]->Block_0.name matches Some(
            BlockName::Int { .. },
        )) && !(max_walk(rest) is Some && max_walk(rest)->0 >= items[last]->Block_0.name->0->Int_value) {
            let v0 = items[last]->Block_0.name->0->Int_value;
            assert(max_walk(items) == Some(v0));
            assert(walk_number_at(items, last, v0));
            assert(walk_number_at(items, last, max_walk(items)->0));
        } else {
            assert(max_walk(items) == max_walk(rest));
            if max_walk(rest) is Some {
                let m = max_walk(rest)->0;
                let i = choose|i: int| #[trigger] walk_number_at(rest, i, m);
                assert(items[i] == rest[i]);
                assert(walk_number_at(items, i, m));
                assert(walk_number_at(items, i, max_walk(items)->0));
            }
        }
    }
}

/// The slice's default walk is the highest `walk N` it declares, or 1
/// when it declares none.
pub proof fn law_default_walk_is_highest(items: Seq<BlockItem>)
    ensures
        forall|i: int, v: i64| #[trigger] walk_number_at(items, i, v) ==> v <= default_walk(items),
        (exists|i: int, v: i64| #[trigger] walk_number_at(items, i, v)) ==> exists|i: int|
            #[trigger] walk_number_at(items, i, default_walk(items)),
        (forall|i: int, v: i64| !#[trigger] walk_number_at(items, i, v)) ==> default_walk(items) == 1,
{
    lemma_max_walk(items);
    if exists|i: int, v: i64| #[trigger] walk_number_at(items, i, v) {
        let (i, v) = choose|i: int, v: i64| #[trigger] walk_number_at(items, i, v);
        assert(max_walk(items) is Some);
        assert(default_walk(items) == max_walk(items)->0);
    }
}

} // verus!
