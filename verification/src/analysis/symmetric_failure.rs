//! Pass 3: symmetric-failure (the founding-incident discipline).
//!
//! For every event whose steps include at least two `fallible: true` ones,
//! every fallible step after the first that follows at least one prior
//! fallible or mutating step needs a `post_failure` row for that
//! (event, step) pair. When the event's atomicity is `transactional` or
//! `db_transaction`, that row must give both `cells_after_pre_rollback`
//! and `cells_after_rollback`.

use vstd::prelude::*;

use crate::analysis::nav::{
    block_name_ident, field_ident, field_is_true, field_value, has_block, has_field, kind_is,
    spec_block_name_ident, spec_field_ident, spec_field_is_true, spec_field_value,
    spec_nested_block,
};
use crate::ast::{BlockDecl, BlockItem, BlockName, FieldValue, File, Ident};
use crate::diagnostic::codes;
use crate::diagnostic::{DiagView, Diagnostic, Severity, dvs, emit, hinted};
use crate::text::{is_lit, owned};

verus! {

// ---------------------------------------------------------------------------
// The rule
// ---------------------------------------------------------------------------

/// Indices (into `items`) of the named `step` blocks, in order.
pub open spec fn step_indices(items: Seq<BlockItem>) -> Seq<int>
    decreases items.len(),
{
    if items.len() == 0 {
        seq![]
    } else {
        let rest = step_indices(items.drop_last());
        let last = items.last();
        if last is Block && last->Block_0.kind.name@ == "step"@ && spec_block_name_ident(
            last->Block_0,
        ) is Some {
            rest.push(items.len() - 1)
        } else {
            rest
        }
    }
}

pub open spec fn item_block(items: Seq<BlockItem>, i: int) -> BlockDecl {
    items[i]->Block_0
}

/// A step whose failure leaves observable state behind for later steps:
/// fallible, or mutating a non-empty list of cells.
pub open spec fn observable(b: BlockDecl) -> bool {
    spec_field_is_true(b, "fallible"@) || (spec_field_value(b, "mutates"@) matches Some(
        FieldValue::List { items, .. },
    ) && items@.len() > 0)
}

/// Number of fallible steps among the first `n` of `idx`.
pub open spec fn fallible_count(items: Seq<BlockItem>, idx: Seq<int>, n: int) -> nat
    decreases n,
{
    if n <= 0 {
        0
    } else {
        fallible_count(items, idx, n - 1) + if spec_field_is_true(item_block(items, idx[n - 1]), "fallible"@) {
            1nat
        } else {
            0nat
        }
    }
}

/// Step `i` of the event (by position among its steps) needs a
/// post_failure row.
pub open spec fn needs_row(items: Seq<BlockItem>, idx: Seq<int>, i: int) -> bool {
    &&& 0 < i < idx.len()
    &&& spec_field_is_true(item_block(items, idx[i]), "fallible"@)
    &&& exists|j: int| 0 <= j < i && observable(item_block(items, #[trigger] idx[j]))
}

/// The event is subject to the rule: at least two fallible steps.
pub open spec fn event_in_scope(event: BlockDecl) -> bool {
    let idx = step_indices(event.items@);
    fallible_count(event.items@, idx, idx.len() as int) >= 2
}

/// The post_failure block that answers `(e, s)`: the last one in the slice
/// whose `event:` and `step:` name them.
pub open spec fn is_pf_for(it: BlockItem, e: Seq<char>, s: Seq<char>) -> bool {
    &&& it is Block
    &&& it->Block_0.kind.name@ == "post_failure"@
    &&& spec_field_ident(it->Block_0, "event"@) matches Some(ei) && ei.name@ == e
    &&& spec_field_ident(it->Block_0, "step"@) matches Some(si) && si.name@ == s
}

pub open spec fn pf_find(items: Seq<BlockItem>, e: Seq<char>, s: Seq<char>) -> Option<BlockDecl>
    decreases items.len(),
{
    if items.len() == 0 {
        None
    } else if is_pf_for(items.last(), e, s) {
        Some(items.last()->Block_0)
    } else {
        pf_find(items.drop_last(), e, s)
    }
}

pub open spec fn atomicity_of(event: BlockDecl) -> Seq<char> {
    match spec_field_ident(event, "atomicity"@) {
        Some(i) => i.name@,
        None => "none"@,
    }
}

pub open spec fn needs_rollback_pair(atomicity: Seq<char>) -> bool {
    atomicity == "db_transaction"@ || atomicity == "transactional"@
}

pub open spec fn has_rollback_pair(pf: BlockDecl) -> bool {
    &&& (spec_field_value(pf, "cells_after_pre_rollback"@) is Some || spec_nested_block(
        pf,
        "cells_after_pre_rollback"@,
    ) is Some)
    &&& (spec_field_value(pf, "cells_after_rollback"@) is Some || spec_nested_block(
        pf,
        "cells_after_rollback"@,
    ) is Some)
}

pub open spec fn missing_row_diag(e: Seq<char>, step: Ident) -> DiagView {
    hinted(
        codes::E_SYMFAIL_MISSING_POST_FAILURE,
        Severity::Error,
        "missing `post_failure` row for `event: "@ + e + ", step: "@ + step.name@
            + "` — what is the state of all cells if `"@ + step.name@
            + "` fails AFTER prior steps succeeded?"@,
        step.span,
        "add `post_failure pf_<id> { event: "@ + e + " step: "@ + step.name@
            + " outcome: \"...\" cells_after_pre_rollback { ... } cells_after_rollback { ... } }`"@,
    )
}

pub open spec fn missing_pair_diag(e: Seq<char>, step: Seq<char>, atomicity: Seq<char>, pf: BlockDecl) -> DiagView {
    hinted(
        codes::E_SYMFAIL_MISSING_ROLLBACK_PAIR,
        Severity::Error,
        "post_failure for `"@ + e + "."@ + step + "` (atomicity: "@ + atomicity
            + ") must declare BOTH `cells_after_pre_rollback` and `cells_after_rollback`"@,
        pf.span,
        "transactional events expose a transient pre-rollback state that may itself be a forbidden state; both the transient state AND the rolled-back steady state must be modeled"@,
    )
}

/// What the pass reports for step `i` of `event`.
pub open spec fn step_diags(slice_items: Seq<BlockItem>, event: BlockDecl, i: int) -> Seq<DiagView> {
    let items = event.items@;
    let idx = step_indices(items);
    let e = spec_block_name_ident(event)->0.name@;
    let step = spec_block_name_ident(item_block(items, idx[i]))->0;
    if !needs_row(items, idx, i) {
        seq![]
    } else {
        match pf_find(slice_items, e, step.name@) {
            None => seq![missing_row_diag(e, step)],
            Some(pf) => if needs_rollback_pair(atomicity_of(event)) && !has_rollback_pair(pf) {
                seq![missing_pair_diag(e, step.name@, atomicity_of(event), pf)]
            } else {
                seq![]
            },
        }
    }
}

pub open spec fn steps_diags(slice_items: Seq<BlockItem>, event: BlockDecl, n: int) -> Seq<DiagView>
    decreases n,
{
    if n <= 0 {
        seq![]
    } else {
        steps_diags(slice_items, event, n - 1) + step_diags(slice_items, event, n - 1)
    }
}

pub open spec fn event_diags(slice_items: Seq<BlockItem>, event: BlockDecl) -> Seq<DiagView> {
    if spec_block_name_ident(event) is None || !event_in_scope(event) {
        seq![]
    } else {
        steps_diags(slice_items, event, step_indices(event.items@).len() as int)
    }
}

pub open spec fn items_diags(slice_items: Seq<BlockItem>, n: int) -> Seq<DiagView>
    decreases n,
{
    if n <= 0 {
        seq![]
    } else {
        let it = slice_items[n - 1];
        items_diags(slice_items, n - 1) + if it is Block && it->Block_0.kind.name@ == "event"@ {
            event_diags(slice_items, it->Block_0)
        } else {
            seq![]
        }
    }
}

/// Everything the symmetric-failure pass reports for a file, in order.
pub open spec fn symmetric_spec(file: File) -> Seq<DiagView> {
    match file.slice {
        None => seq![],
        Some(s) => items_diags(s.items@, s.items@.len() as int),
    }
}

// ---------------------------------------------------------------------------
// The pass
// ---------------------------------------------------------------------------

/// Append symmetric-failure diagnostics: exactly [`symmetric_spec`].
pub fn run(file: &File, out: &mut Vec<Diagnostic>)
    ensures
        dvs(final(out)@) == dvs(old(out)@) + symmetric_spec(*file),
{
    let slice = match &file.slice {
        Some(s) => s,
        None => {
            assert(dvs(out@) =~= dvs(old(out)@) + symmetric_spec(*file));
            return;
        },
    };
    let items = &slice.items;
    let mut i: usize = 0;
    while i < items.len()
        invariant
            i <= items@.len(),
            items@ == slice.items@,
            dvs(out@) == dvs(old(out)@) + items_diags(items@, i as int),
        decreases items@.len() - i,
    {
        match &items[i] {
            BlockItem::Block(event) => {
                if kind_is(event, "event") {
                    check_event(items, event, out);
                } else {
                    assert(dvs(out@) =~= dvs(old(out)@) + items_diags(items@, i as int + 1));
                }
            },
            _ => {
                assert(dvs(out@) =~= dvs(old(out)@) + items_diags(items@, i as int + 1));
            },
        }
        i = i + 1;
    }
}

/// Indices of the named step blocks of `event`.
pub(crate) fn collect_steps(event: &BlockDecl) -> (r: Vec<usize>)
    ensures
        r@.len() == step_indices(event.items@).len(),
        forall|k: int| 0 <= k < r@.len() ==> r@[k] as int == step_indices(event.items@)[k],
        forall|k: int| 0 <= k < r@.len() ==> (#[trigger] r@[k]) < event.items@.len(),
{
    let items = &event.items;
    let mut out: Vec<usize> = Vec::new();
    let mut i: usize = 0;
    while i < items.len()
        invariant
            i <= items@.len(),
            items@ == event.items@,
            out@.len() == step_indices(items@.subrange(0, i as int)).len(),
            forall|k: int| 0 <= k < out@.len() ==> out@[k] as int == step_indices(items@.subrange(0, i as int))[k],
            forall|k: int| 0 <= k < out@.len() ==> (#[trigger] out@[k]) < i,
        decreases items@.len() - i,
    {
        let ghost nxt = items@.subrange(0, i as int + 1);
        proof {
            assert(nxt.drop_last() =~= items@.subrange(0, i as int));
        }
        match &items[i] {
            BlockItem::Block(b) => {
                if kind_is(b, "step") && block_name_ident(b).is_some() {
                    out.push(i);
                }
            },
            _ => {},
        }
        i = i + 1;
    }
    assert(items@.subrange(0, items@.len() as int) =~= items@);
    out
}

/// Whether a step block leaves observable state.
pub(crate) fn is_observable(b: &BlockDecl) -> (r: bool)
    ensures
        r == observable(*b),
{
    if field_is_true(b, "fallible") {
        return true;
    }
    match field_value(b, "mutates") {
        Some(FieldValue::List { items, .. }) => items.len() > 0,
        _ => false,
    }
}

/// The post_failure block for `(e, s)`, if any.
pub(crate) fn find_post_failure<'a>(slice_items: &'a Vec<BlockItem>, e: &str, s: &str) -> (r: Option<&'a BlockDecl>)
    ensures
        match r {
            Some(b) => pf_find(slice_items@, e@, s@) == Some(*b),
            None => pf_find(slice_items@, e@, s@) is None,
        },
{
    let mut found: Option<&'a BlockDecl> = None;
    let mut i: usize = 0;
    while i < slice_items.len()
        invariant
            i <= slice_items@.len(),
            match found {
                Some(b) => pf_find(slice_items@.subrange(0, i as int), e@, s@) == Some(*b),
                None => pf_find(slice_items@.subrange(0, i as int), e@, s@) is None,
            },
        decreases slice_items@.len() - i,
    {
        let ghost nxt = slice_items@.subrange(0, i as int + 1);
        proof {
            assert(nxt.drop_last() =~= slice_items@.subrange(0, i as int));
        }
        match &slice_items[i] {
            BlockItem::Block(b) => {
                if kind_is(b, "post_failure") {
                    let ev = field_ident(b, "event");
                    let st = field_ident(b, "step");
                    match (ev, st) {
                        (Some(ei), Some(si)) => {
                            if crate::text::str_eq(ei.name.as_str(), e) && crate::text::str_eq(si.name.as_str(), s) {
                                found = Some(b);
                            }
                        },
                        _ => {},
                    }
                }
            },
            _ => {},
        }
        i = i + 1;
    }
    assert(slice_items@.subrange(0, slice_items@.len() as int) =~= slice_items@);
    found
}

fn check_event(slice_items: &Vec<BlockItem>, event: &BlockDecl, out: &mut Vec<Diagnostic>)
    ensures
        dvs(final(out)@) == dvs(old(out)@) + event_diags(slice_items@, *event),
{
    let event_name = match block_name_ident(event) {
        Some(n) => n.name.as_str(),
        None => {
            assert(dvs(out@) =~= dvs(old(out)@) + event_diags(slice_items@, *event));
            return;
        },
    };
    let steps = collect_steps(event);
    let ghost idx = step_indices(event.items@);
    let items = &event.items;
    // Count fallible steps.
    let mut fallible: usize = 0;
    let mut k: usize = 0;
    while k < steps.len()
        invariant
            k <= steps@.len(),
            items@ == event.items@,
            steps@.len() == idx.len(),
            forall|q: int| 0 <= q < steps@.len() ==> steps@[q] as int == idx[q],
            forall|q: int| 0 <= q < steps@.len() ==> (#[trigger] steps@[q]) < items@.len(),
            fallible as nat == fallible_count(items@, idx, k as int),
            fallible <= k,
            idx == step_indices(items@),
        decreases steps@.len() - k,
    {
        proof {
            lemma_step_indices_are_blocks(items@, k as int);
        }
        let sb = match &items[steps[k]] {
            BlockItem::Block(b) => b,
            BlockItem::Field(_) => {
                return;
            },
        };
        if field_is_true(sb, "fallible") {
            fallible = fallible + 1;
        }
        k = k + 1;
    }
    if fallible < 2 {
        assert(dvs(out@) =~= dvs(old(out)@) + event_diags(slice_items@, *event));
        return;
    }
    let atomicity: &str = match field_ident(event, "atomicity") {
        Some(a) => a.name.as_str(),
        None => "none",
    };
    let needs_pair = crate::text::str_eq(atomicity, "db_transaction")
        || crate::text::str_eq(atomicity, "transactional");
    let mut seen_observable = false;
    let mut i: usize = 0;
    while i < steps.len()
        invariant
            i <= steps@.len(),
            items@ == event.items@,
            steps@.len() == idx.len(),
            idx == step_indices(items@),
            forall|q: int| 0 <= q < steps@.len() ==> steps@[q] as int == idx[q],
            forall|q: int| 0 <= q < steps@.len() ==> (#[trigger] steps@[q]) < items@.len(),
            spec_block_name_ident(*event) matches Some(n) && n.name@ == event_name@,
            atomicity@ == atomicity_of(*event),
            needs_pair == needs_rollback_pair(atomicity@),
            seen_observable == (exists|j: int| 0 <= j < i && observable(item_block(items@, #[trigger] idx[j]))),
            event_in_scope(*event),
            dvs(out@) == dvs(old(out)@) + steps_diags(slice_items@, *event, i as int),
        decreases steps@.len() - i,
    {
        proof {
            lemma_step_indices_are_blocks(items@, i as int);
        }
        let sb = match &items[steps[i]] {
            BlockItem::Block(b) => b,
            BlockItem::Field(_) => {
                return;
            },
        };
        let step_name = match block_name_ident(sb) {
            Some(n) => n,
            None => {
                return;
            },
        };
        let ghost sd = step_diags(slice_items@, *event, i as int);
        if i > 0 && field_is_true(sb, "fallible") && seen_observable {
            match find_post_failure(slice_items, event_name, step_name.name.as_str()) {
                None => {
                    let mut msg = owned("missing `post_failure` row for `event: ");
                    msg.append(event_name);
                    msg.append(", step: ");
                    msg.append(step_name.name.as_str());
                    msg.append("` — what is the state of all cells if `");
                    msg.append(step_name.name.as_str());
                    msg.append("` fails AFTER prior steps succeeded?");
                    let mut hint = owned("add `post_failure pf_<id> { event: ");
                    hint.append(event_name);
                    hint.append(" step: ");
                    hint.append(step_name.name.as_str());
                    hint.append(" outcome: \"...\" cells_after_pre_rollback { ... } cells_after_rollback { ... } }`");
                    emit(out, Diagnostic::error(codes::E_SYMFAIL_MISSING_POST_FAILURE, step_name.span, msg).with_hint(hint));
                    assert(dvs(out@) =~= dvs(old(out)@) + steps_diags(slice_items@, *event, i as int + 1));
                },
                Some(pf) => {
                    if needs_pair {
                        let has_pre = has_field(pf, "cells_after_pre_rollback") || has_block(pf, "cells_after_pre_rollback");
                        let has_post = has_field(pf, "cells_after_rollback") || has_block(pf, "cells_after_rollback");
                        if !(has_pre && has_post) {
                            let mut msg = owned("post_failure for `");
                            msg.append(event_name);
                            msg.append(".");
                            msg.append(step_name.name.as_str());
                            msg.append("` (atomicity: ");
                            msg.append(atomicity);
                            msg.append(") must declare BOTH `cells_after_pre_rollback` and `cells_after_rollback`");
                            let hint = owned("transactional events expose a transient pre-rollback state that may itself be a forbidden state; both the transient state AND the rolled-back steady state must be modeled");
                            emit(out, Diagnostic::error(codes::E_SYMFAIL_MISSING_ROLLBACK_PAIR, pf.span, msg).with_hint(hint));
                            assert(dvs(out@) =~= dvs(old(out)@) + steps_diags(slice_items@, *event, i as int + 1));
                        } else {
                            assert(dvs(out@) =~= dvs(old(out)@) + steps_diags(slice_items@, *event, i as int + 1));
                        }
                    } else {
                        assert(dvs(out@) =~= dvs(old(out)@) + steps_diags(slice_items@, *event, i as int + 1));
                    }
                },
            }
        } else {
            assert(sd =~= seq![]);
            assert(dvs(out@) =~= dvs(old(out)@) + steps_diags(slice_items@, *event, i as int + 1));
        }
        if is_observable(sb) {
            seen_observable = true;
        }
        i = i + 1;
    }
    assert(dvs(out@) =~= dvs(old(out)@) + event_diags(slice_items@, *event));
}

/// Every recorded step index names a step block with an identifier name.
pub(crate) proof fn lemma_step_indices_are_blocks(items: Seq<BlockItem>, k: int)
    requires
        0 <= k < step_indices(items).len(),
    ensures
        0 <= step_indices(items)[k] < items.len(),
        items[step_indices(items)[k]] is Block,
        items[step_indices(items)[k]]->Block_0.kind.name@ == "step"@,
        spec_block_name_ident(items[step_indices(items)[k]]->Block_0) is Some,
    decreases items.len(),
{
    let rest = step_indices(items.drop_last());
    if k < rest.len() {
        lemma_step_indices_are_blocks(items.drop_last(), k);
    }
}

// ---------------------------------------------------------------------------
// Laws
// ---------------------------------------------------------------------------

proof fn lemma_steps_diags_has(slice_items: Seq<BlockItem>, event: BlockDecl, i: int, n: int, d: DiagView)
    requires
        0 <= i < n,
        step_diags(slice_items, event, i).contains(d),
    ensures
        steps_diags(slice_items, event, n).contains(d),
    decreases n,
{
    if i == n - 1 {
        crate::text::lemma_concat_contains(steps_diags(slice_items, event, n - 1), step_diags(slice_items, event, n - 1), d);
    } else {
        lemma_steps_diags_has(slice_items, event, i, n - 1, d);
        crate::text::lemma_concat_contains(steps_diags(slice_items, event, n - 1), step_diags(slice_items, event, n - 1), d);
    }
}

proof fn lemma_items_diags_has(slice_items: Seq<BlockItem>, e: int, n: int, d: DiagView)
    requires
        0 <= e < n <= slice_items.len(),
        slice_items[e] is Block,
        slice_items[e]->Block_0.kind.name@ == "event"@,
        event_diags(slice_items, slice_items[e]->Block_0).contains(d),
    ensures
        items_diags(slice_items, n).contains(d),
    decreases n,
{
    if e == n - 1 {
        crate::text::lemma_concat_contains(
            items_diags(slice_items, n - 1),
            event_diags(slice_items, slice_items[e]->Block_0),
            d,
        );
    } else {
        lemma_items_diags_has(slice_items, e, n - 1, d);
        let it = slice_items[n - 1];
        crate::text::lemma_concat_contains(
            items_diags(slice_items, n - 1),
            if it is Block && it->Block_0.kind.name@ == "event"@ {
                event_diags(slice_items, it->Block_0)
            } else {
                seq![]
            },
            d,
        );
    }
}

/// A step that can fail, or that mutates cells (even when it cannot fail),
/// leaves observable state: in an event with at least two fallible steps, a
/// fallible step that comes after such a step needs a post_failure row, and
/// without one the pass reports it at the step.
pub proof fn law_mutating_step_makes_later_failure_observable(file: File, e: int, i: int, j: int)
    requires
        file.slice is Some,
        0 <= e < file.slice->0.items@.len(),
        file.slice->0.items@[e] is Block,
        file.slice->0.items@[e]->Block_0.kind.name@ == "event"@,
        spec_block_name_ident(file.slice->0.items@[e]->Block_0) is Some,
        event_in_scope(file.slice->0.items@[e]->Block_0),
        0 <= j < i < step_indices(file.slice->0.items@[e]->Block_0.items@).len(),
        spec_field_is_true(
            file.slice->0.items@[e]->Block_0.items@[step_indices(file.slice->0.items@[e]->Block_0.items@)[i]]->Block_0,
            "fallible"@,
        ),
        spec_field_is_true(
            file.slice->0.items@[e]->Block_0.items@[step_indices(file.slice->0.items@[e]->Block_0.items@)[j]]->Block_0,
            "fallible"@,
        ) || (spec_field_value(
            file.slice->0.items@[e]->Block_0.items@[step_indices(file.slice->0.items@[e]->Block_0.items@)[j]]->Block_0,
            "mutates"@,
        ) matches Some(FieldValue::List { items: cells, .. }) && cells@.len() > 0),
        pf_find(
            file.slice->0.items@,
            spec_block_name_ident(file.slice->0.items@[e]->Block_0)->0.name@,
            spec_block_name_ident(
                file.slice->0.items@[e]->Block_0.items@[step_indices(file.slice->0.items@[e]->Block_0.items@)[i]]->Block_0,
            )->0.name@,
        ) is None,
    ensures
        symmetric_spec(file).contains(
            missing_row_diag(
                spec_block_name_ident(file.slice->0.items@[e]->Block_0)->0.name@,
                spec_block_name_ident(
                    file.slice->0.items@[e]->Block_0.items@[step_indices(file.slice->0.items@[e]->Block_0.items@)[i]]->Block_0,
                )->0,
            ),
        ),
{
    let items = file.slice->0.items@;
    let ev = items[e]->Block_0;
    let idx = step_indices(ev.items@);
    let en = spec_block_name_ident(ev)->0.name@;
    let step = spec_block_name_ident(item_block(ev.items@, idx[i]))->0;
    let d = missing_row_diag(en, step);
    assert(observable(item_block(ev.items@, idx[j])));
    assert(needs_row(ev.items@, idx, i));
    assert(step_diags(items, ev, i) == seq![d]);
    assert(step_diags(items, ev, i)[0] == d);
    lemma_steps_diags_has(items, ev, i, idx.len() as int, d);
    lemma_items_diags_has(items, e, items.len() as int, d);
}

/// For an event whose `atomicity:` is `transactional` or `db_transaction`,
/// a post_failure row that answers a step needing one must declare both
/// `cells_after_pre_rollback` and `cells_after_rollback`: when the row
/// declares neither form of the first, the pass reports the missing pair
/// at the row.
pub proof fn law_transactional_row_needs_pair(file: File, e: int, i: int, j: int)
    requires
        file.slice is Some,
        0 <= e < file.slice->0.items@.len(),
        file.slice->0.items@[e] is Block,
        file.slice->0.items@[e]->Block_0.kind.name@ == "event"@,
        spec_block_name_ident(file.slice->0.items@[e]->Block_0) is Some,
        event_in_scope(file.slice->0.items@[e]->Block_0),
        spec_field_ident(file.slice->0.items@[e]->Block_0, "atomicity"@) matches Some(a) && (a.name@
            == "transactional"@ || a.name@ == "db_transaction"@),
        0 <= j < i < step_indices(file.slice->0.items@[e]->Block_0.items@).len(),
        spec_field_is_true(
            file.slice->0.items@[e]->Block_0.items@[step_indices(file.slice->0.items@[e]->Block_0.items@)[i]]->Block_0,
            "fallible"@,
        ),
        spec_field_is_true(
            file.slice->0.items@[e]->Block_0.items@[step_indices(file.slice->0.items@[e]->Block_0.items@)[j]]->Block_0,
            "fallible"@,
        ),
        pf_find(
            file.slice->0.items@,
            spec_block_name_ident(file.slice->0.items@[e]->Block_0)->0.name@,
            spec_block_name_ident(
                file.slice->0.items@[e]->Block_0.items@[step_indices(file.slice->0.items@[e]->Block_0.items@)[i]]->Block_0,
            )->0.name@,
        ) matches Some(pf) && spec_field_value(pf, "cells_after_pre_rollback"@) is None && spec_nested_block(
            pf,
            "cells_after_pre_rollback"@,
        ) is None,
    ensures
        symmetric_spec(file).contains(
            missing_pair_diag(
                spec_block_name_ident(file.slice->0.items@[e]->Block_0)->0.name@,
                spec_block_name_ident(
                    file.slice->0.items@[e]->Block_0.items@[step_indices(file.slice->0.items@[e]->Block_0.items@)[i]]->Block_0,
                )->0.name@,
                spec_field_ident(file.slice->0.items@[e]->Block_0, "atomicity"@)->0.name@,
                pf_find(
                    file.slice->0.items@,
                    spec_block_name_ident(file.slice->0.items@[e]->Block_0)->0.name@,
                    spec_block_name_ident(
                        file.slice->0.items@[e]->Block_0.items@[step_indices(file.slice->0.items@[e]->Block_0.items@)[i]]->Block_0,
                    )->0.name@,
                )->0,
            ),
        ),
{
    let items = file.slice->0.items@;
    let ev = items[e]->Block_0;
    let idx = step_indices(ev.items@);
    let en = spec_block_name_ident(ev)->0.name@;
    let step = spec_block_name_ident(item_block(ev.items@, idx[i]))->0;
    let pf = pf_find(items, en, step.name@)->0;
    let at = spec_field_ident(ev, "atomicity"@)->0.name@;
    let d = missing_pair_diag(en, step.name@, at, pf);
    assert(atomicity_of(ev) == at);
    assert(observable(item_block(ev.items@, idx[j])));
    assert(needs_row(ev.items@, idx, i));
    assert(step_diags(items, ev, i) == seq![d]);
    assert(step_diags(items, ev, i)[0] == d);
    lemma_steps_diags_has(items, ev, i, idx.len() as int, d);
    lemma_items_diags_has(items, e, items.len() as int, d);
}

proof fn lemma_steps_diags_from(slice_items: Seq<BlockItem>, event: BlockDecl, n: int, d: DiagView)
    requires
        steps_diags(slice_items, event, n).contains(d),
    ensures
        exists|i: int| 0 <= i < n && #[trigger] step_diags(slice_items, event, i).contains(d),
    decreases n,
{
    if n > 0 {
        crate::text::lemma_concat_contains(steps_diags(slice_items, event, n - 1), step_diags(slice_items, event, n - 1), d);
        if steps_diags(slice_items, event, n - 1).contains(d) {
            lemma_steps_diags_from(slice_items, event, n - 1, d);
            let i = choose|i: int| 0 <= i < n - 1 && #[trigger] step_diags(slice_items, event, i).contains(d);
            assert(step_diags(slice_items, event, i).contains(d));
        } else {
            assert(step_diags(slice_items, event, n - 1).contains(d));
        }
    }
}

proof fn lemma_items_diags_from(slice_items: Seq<BlockItem>, n: int, d: DiagView)
    requires
        n <= slice_items.len(),
        items_diags(slice_items, n).contains(d),
    ensures
        exists|e: int|
            0 <= e < n && slice_items[e] is Block && slice_items[e]->Block_0.kind.name@ == "event"@ && #[trigger] event_diags(
                slice_items,
                slice_items[e]->Block_0,
            ).contains(d),
    decreases n,
{
    if n > 0 {
        let it = slice_items[n - 1];
        let tail = if it is Block && it->Block_0.kind.name@ == "event"@ {
            event_diags(slice_items, it->Block_0)
        } else {
            seq![]
        };
        crate::text::lemma_concat_contains(items_diags(slice_items, n - 1), tail, d);
        if items_diags(slice_items, n - 1).contains(d) {
            lemma_items_diags_from(slice_items, n - 1, d);
            let e = choose|e: int|
                0 <= e < n - 1 && slice_items[e] is Block && slice_items[e]->Block_0.kind.name@ == "event"@
                    && #[trigger] event_diags(slice_items, slice_items[e]->Block_0).contains(d);
            assert(event_diags(slice_items, slice_items[e]->Block_0).contains(d));
        } else {
            assert(event_diags(slice_items, slice_items[n - 1]->Block_0).contains(d));
        }
    }
}

/// `d` is what the pass says about step `i` of the event at item `e`, a
/// named event with at least two fallible steps, where that step is
/// fallible, is not the event's first step, and follows a step that can
/// fail or that mutates a non-empty list of cells.
pub open spec fn exposed_step_diag(file: File, e: int, i: int, d: DiagView) -> bool {
    let items = file.slice->0.items@;
    let ev = items[e]->Block_0;
    let idx = step_indices(ev.items@);
    &&& file.slice is Some
    &&& 0 <= e < items.len()
    &&& items[e] is Block
    &&& ev.kind.name@ == "event"@
    &&& spec_block_name_ident(ev) is Some
    &&& event_in_scope(ev)
    &&& 0 < i < idx.len()
    &&& spec_field_is_true(ev.items@[idx[i]]->Block_0, "fallible"@)
    &&& exists|j: int|
        0 <= j < i && (spec_field_is_true(#[trigger] ev.items@[idx[j]]->Block_0, "fallible"@) || (spec_field_value(
            ev.items@[idx[j]]->Block_0,
            "mutates"@,
        ) matches Some(FieldValue::List { items: cells, .. }) && cells@.len() > 0))
    &&& step_diags(items, ev, i).contains(d)
}

/// What the pass reports, it reports for a reason: every diagnostic is
/// about an exposed step ([`exposed_step_diag`]).
pub proof fn law_reports_only_exposed_steps(file: File, d: DiagView)
    requires
        symmetric_spec(file).contains(d),
    ensures
        exists|e: int, i: int| #[trigger] exposed_step_diag(file, e, i, d),
{
    let items = file.slice->0.items@;
    lemma_items_diags_from(items, items.len() as int, d);
    let e = choose|e: int|
        0 <= e < items.len() && items[e] is Block && items[e]->Block_0.kind.name@ == "event"@ && #[trigger] event_diags(
            items,
            items[e]->Block_0,
        ).contains(d);
    let ev = items[e]->Block_0;
    let idx = step_indices(ev.items@);
    lemma_steps_diags_from(items, ev, idx.len() as int, d);
    let i = choose|i: int| 0 <= i < idx.len() && #[trigger] step_diags(items, ev, i).contains(d);
    assert(needs_row(ev.items@, idx, i));
    let j = choose|j: int| 0 <= j < i && observable(item_block(ev.items@, #[trigger] idx[j]));
    assert(spec_field_is_true(ev.items@[idx[j]]->Block_0, "fallible"@) || (spec_field_value(
        ev.items@[idx[j]]->Block_0,
        "mutates"@,
    ) matches Some(FieldValue::List { items: cells, .. }) && cells@.len() > 0));
    assert(exposed_step_diag(file, e, i, d));
}

} // verus!
