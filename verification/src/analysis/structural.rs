//! Pass 1: structural completeness.
//!
//! Walks each slot block and checks that the fields the v0 grammar marks
//! required are present:
//!
//! | slot              | required fields                                    |
//! |-------------------|----------------------------------------------------|
//! | `cell`            | `type`, `mutable`                                  |
//! | `derived`         | `derives_from`, `derivation`                       |
//! | `association`     | `invariant`, `over`, `enforced_by`                 |
//! | `event`           | `mutates`, at least one `step` block               |
//! | `step` (in event) | `op`, `fallible`                                   |
//! | `post_failure`    | `event`, `step`, `outcome`, some `cells_after`     |
//! | `forbidden_state` | `description`, `predicate` or `cells`, `reachability`, `kill_test` |
//! | `kill_test`       | `forbidden`, `kind`, `assertion`                   |
//!
//! Field contents are the coherence pass's concern; post_failure coverage is
//! the symmetric-failure pass's.

use vstd::prelude::*;

use crate::analysis::nav::{
    blocks_count, count_blocks_named, has_block, has_field, spec_field_value, spec_nested_block,
};
use crate::ast::{BlockDecl, BlockItem, BlockName, File};
use crate::diagnostic::codes;
use crate::diagnostic::{
    DiagView, Diagnostic, Severity, dv, dvs, emit, hinted, lemma_dvs_concat, plain,
};
use crate::span::Span;
use crate::text::{cat, cat3, cat5, is_lit, owned};

verus! {

// ---------------------------------------------------------------------------
// What the pass reports
// ---------------------------------------------------------------------------

/// The block's name for messages: its identifier, `<numeric>` for an
/// integer name, `fallback` when unnamed.
pub open spec fn name_or(b: BlockDecl, fallback: Seq<char>) -> Seq<char> {
    match b.name {
        Some(BlockName::Ident(i)) => i.name@,
        Some(BlockName::Int { .. }) => "<numeric>"@,
        None => fallback,
    }
}

pub open spec fn named_spec(b: BlockDecl, slot: Seq<char>) -> Seq<DiagView> {
    if b.name is Some {
        seq![]
    } else {
        seq![hinted(codes::E_STRUCT_MISSING_FIELD, Severity::Error,
            "`"@ + slot + "` block requires an identifier name"@, b.span,
            "write `"@ + slot + " <id> { ... }`"@)]
    }
}

pub open spec fn field_spec(b: BlockDecl, key: Seq<char>) -> Seq<DiagView> {
    if spec_field_value(b, key) is Some {
        seq![]
    } else {
        seq![plain(codes::E_STRUCT_MISSING_FIELD, Severity::Error,
            "`"@ + b.kind.name@ + "` block missing required field `"@ + key + ":`"@, b.span)]
    }
}

pub open spec fn steps_spec(items: Seq<BlockItem>) -> Seq<DiagView>
    decreases items.len(),
{
    if items.len() == 0 {
        seq![]
    } else {
        let last = items.last();
        steps_spec(items.drop_last()) + if last is Block && last->Block_0.kind.name@ == "step"@ {
            let s = last->Block_0;
            named_spec(s, "step"@) + field_spec(s, "op"@) + field_spec(s, "fallible"@)
        } else {
            seq![]
        }
    }
}

pub open spec fn event_spec(b: BlockDecl) -> Seq<DiagView> {
    named_spec(b, "event"@) + field_spec(b, "mutates"@) + (if blocks_count(b.items@, "step"@, 0) == 0 {
        seq![hinted(codes::E_STRUCT_EVENT_NO_STEPS, Severity::Error,
            "event `"@ + name_or(b, "<unnamed>"@) + "` declares no `step` blocks"@, b.span,
            "an event must contain at least one `step { ... }` block"@)]
    } else {
        seq![]
    }) + steps_spec(b.items@)
}

pub open spec fn post_failure_spec(b: BlockDecl) -> Seq<DiagView> {
    named_spec(b, "post_failure"@) + field_spec(b, "event"@) + field_spec(b, "step"@) + field_spec(
        b,
        "outcome"@,
    ) + if spec_field_value(b, "cells_after"@) is Some || spec_nested_block(b, "cells_after"@) is Some
        || spec_nested_block(b, "cells_after_pre_rollback"@) is Some || spec_nested_block(
        b,
        "cells_after_rollback"@,
    ) is Some {
        seq![]
    } else {
        seq![hinted(codes::E_STRUCT_MISSING_FIELD, Severity::Error,
            "post_failure `"@ + name_or(b, "<unnamed>"@) + "` is missing a `cells_after` declaration"@,
            b.span,
            "add `cells_after { ... }` (or `cells_after_pre_rollback { ... }` + `cells_after_rollback { ... }` for transactional events)"@)]
    }
}

pub open spec fn forbidden_state_spec(b: BlockDecl) -> Seq<DiagView> {
    named_spec(b, "forbidden_state"@) + field_spec(b, "description"@) + (if spec_field_value(
        b,
        "predicate"@,
    ) is Some || spec_field_value(b, "cells"@) is Some || spec_nested_block(b, "cells"@) is Some {
        seq![]
    } else {
        seq![hinted(codes::E_STRUCT_FORBIDDEN_STATE_BODY, Severity::Error,
            "forbidden_state `"@ + name_or(b, "<unnamed>"@) + "` is missing a `predicate:` or `cells:` body"@,
            b.span,
            "declare exactly one of `predicate: \"...\"` or `cells: { id: value, ... }`"@)]
    }) + field_spec(b, "reachability"@) + field_spec(b, "kill_test"@)
}

pub open spec fn kill_test_spec(b: BlockDecl) -> Seq<DiagView> {
    named_spec(b, "kill_test"@) + field_spec(b, "forbidden"@) + field_spec(b, "kind"@) + field_spec(
        b,
        "assertion"@,
    ) + if spec_field_value(b, "status"@) is Some {
        seq![]
    } else {
        seq![plain(codes::I_STRUCT_KILL_TEST_TODO, Severity::Info,
            "kill_test `"@ + name_or(b, "<unnamed>"@) + "` has no explicit `status:`; defaulting to `declared`"@,
            b.span)]
    }
}

/// Diagnostics for one top-level block, by slot kind. `meta`, `walk` and
/// unknown kinds get none.
pub open spec fn slot_spec(b: BlockDecl) -> Seq<DiagView> {
    let k = b.kind.name@;
    if k == "cell"@ {
        named_spec(b, "cell"@) + field_spec(b, "type"@) + field_spec(b, "mutable"@)
    } else if k == "derived"@ {
        named_spec(b, "derived"@) + field_spec(b, "derives_from"@) + field_spec(b, "derivation"@)
    } else if k == "association"@ {
        named_spec(b, "association"@) + field_spec(b, "invariant"@) + field_spec(b, "over"@)
            + field_spec(b, "enforced_by"@)
    } else if k == "event"@ {
        event_spec(b)
    } else if k == "post_failure"@ {
        post_failure_spec(b)
    } else if k == "forbidden_state"@ {
        forbidden_state_spec(b)
    } else if k == "kill_test"@ {
        kill_test_spec(b)
    } else {
        seq![]
    }
}

pub open spec fn items_spec(items: Seq<BlockItem>) -> Seq<DiagView>
    decreases items.len(),
{
    if items.len() == 0 {
        seq![]
    } else {
        items_spec(items.drop_last()) + match items.last() {
            BlockItem::Block(b) => slot_spec(b),
            BlockItem::Field(_) => seq![],
        }
    }
}

/// Everything the structural pass reports for a file, in order.
pub open spec fn structural_spec(file: File) -> Seq<DiagView> {
    match file.slice {
        None => seq![],
        Some(s) => if s.items@.len() == 0 {
            seq![hinted(codes::E_STRUCT_EMPTY_SLICE, Severity::Error,
                "slice `"@ + s.name.name@ + "` declares no slot blocks"@, s.span,
                "a slice must declare at least one cell, event, or other slot"@)]
        } else {
            items_spec(s.items@)
        },
    }
}

// ---------------------------------------------------------------------------
// The pass
// ---------------------------------------------------------------------------

/// Append structural diagnostics to `out`: exactly [`structural_spec`].
pub fn run(file: &File, out: &mut Vec<Diagnostic>)
    ensures
        dvs(final(out)@) == dvs(old(out)@) + structural_spec(*file),
{
    let slice = match &file.slice {
        Some(s) => s,
        None => {
            assert(dvs(out@) =~= dvs(old(out)@) + structural_spec(*file));
            return;
        },
    };
    if slice.items.len() == 0 {
        let msg = cat3("slice `", slice.name.name.as_str(), "` declares no slot blocks");
        let d = Diagnostic::error(codes::E_STRUCT_EMPTY_SLICE, slice.span, msg).with_hint(
            owned("a slice must declare at least one cell, event, or other slot"),
        );
        emit(out, d);
        return;
    }
    let items = &slice.items;
    let mut i: usize = 0;
    while i < items.len()
        invariant
            i <= items@.len(),
            dvs(out@) == dvs(old(out)@) + items_spec(items@.subrange(0, i as int)),
        decreases items@.len() - i,
    {
        let ghost before = dvs(out@);
        match &items[i] {
            BlockItem::Block(block) => {
                check_slot(block, out);
            },
            BlockItem::Field(_) => {},
        }
        proof {
            let nxt = items@.subrange(0, i as int + 1);
            assert(nxt.drop_last() =~= items@.subrange(0, i as int));
        }
        i = i + 1;
    }
    assert(items@.subrange(0, items@.len() as int) =~= items@);
}

fn check_slot(block: &BlockDecl, out: &mut Vec<Diagnostic>)
    ensures
        dvs(final(out)@) == dvs(old(out)@) + slot_spec(*block),
{
    let k = &block.kind.name;
    if is_lit(k, "cell") {
        check_cell(block, out);
    } else if is_lit(k, "derived") {
        check_derived(block, out);
    } else if is_lit(k, "association") {
        check_association(block, out);
    } else if is_lit(k, "event") {
        check_event(block, out);
    } else if is_lit(k, "post_failure") {
        check_post_failure(block, out);
    } else if is_lit(k, "forbidden_state") {
        check_forbidden_state(block, out);
    } else if is_lit(k, "kill_test") {
        check_kill_test(block, out);
    } else {
        assert(dvs(out@) =~= dvs(old(out)@) + slot_spec(*block));
    }
}

fn check_cell(block: &BlockDecl, out: &mut Vec<Diagnostic>)
    ensures
        dvs(final(out)@) == dvs(old(out)@) + named_spec(*block, "cell"@) + field_spec(*block, "type"@)
            + field_spec(*block, "mutable"@),
{
    require_named(block, out, "cell");
    require_field(block, "type", out);
    require_field(block, "mutable", out);
}

fn check_derived(block: &BlockDecl, out: &mut Vec<Diagnostic>)
    ensures
        dvs(final(out)@) == dvs(old(out)@) + named_spec(*block, "derived"@) + field_spec(
            *block,
            "derives_from"@,
        ) + field_spec(*block, "derivation"@),
{
    require_named(block, out, "derived");
    require_field(block, "derives_from", out);
    require_field(block, "derivation", out);
}

fn check_association(block: &BlockDecl, out: &mut Vec<Diagnostic>)
    ensures
        dvs(final(out)@) == dvs(old(out)@) + named_spec(*block, "association"@) + field_spec(
            *block,
            "invariant"@,
        ) + field_spec(*block, "over"@) + field_spec(*block, "enforced_by"@),
{
    require_named(block, out, "association");
    require_field(block, "invariant", out);
    require_field(block, "over", out);
    require_field(block, "enforced_by", out);
}

fn check_event(block: &BlockDecl, out: &mut Vec<Diagnostic>)
    ensures
        dvs(final(out)@) == dvs(old(out)@) + event_spec(*block),
{
    require_named(block, out, "event");
    require_field(block, "mutates", out);
    let ghost mid = dvs(out@);
    let step_count = count_blocks_named(block, "step");
    if step_count == 0 {
        let msg = cat3("event `", block_name_or(block, "<unnamed>"), "` declares no `step` blocks");
        let d = Diagnostic::error(codes::E_STRUCT_EVENT_NO_STEPS, block.span, msg).with_hint(
            owned("an event must contain at least one `step { ... }` block"),
        );
        emit(out, d);
    }
    let ghost mid2 = dvs(out@);
    let items = &block.items;
    let mut i: usize = 0;
    while i < items.len()
        invariant
            i <= items@.len(),
            items@ == block.items@,
            dvs(out@) == mid2 + steps_spec(items@.subrange(0, i as int)),
        decreases items@.len() - i,
    {
        match &items[i] {
            BlockItem::Block(b) => {
                if is_lit(&b.kind.name, "step") {
                    require_named(b, out, "step");
                    require_field(b, "op", out);
                    require_field(b, "fallible", out);
                }
            },
            _ => {},
        }
        proof {
            let nxt = items@.subrange(0, i as int + 1);
            assert(nxt.drop_last() =~= items@.subrange(0, i as int));
        }
        i = i + 1;
    }
    assert(items@.subrange(0, items@.len() as int) =~= items@);
    assert(dvs(out@) =~= dvs(old(out)@) + event_spec(*block));
}

fn check_post_failure(block: &BlockDecl, out: &mut Vec<Diagnostic>)
    ensures
        dvs(final(out)@) == dvs(old(out)@) + post_failure_spec(*block),
{
    require_named(block, out, "post_failure");
    require_field(block, "event", out);
    require_field(block, "step", out);
    require_field(block, "outcome", out);
    let has_cells_after = has_field(block, "cells_after") || has_block(block, "cells_after")
        || has_block(block, "cells_after_pre_rollback") || has_block(block, "cells_after_rollback");
    if !has_cells_after {
        let msg = cat3(
            "post_failure `",
            block_name_or(block, "<unnamed>"),
            "` is missing a `cells_after` declaration",
        );
        let d = Diagnostic::error(codes::E_STRUCT_MISSING_FIELD, block.span, msg).with_hint(
            owned(
                "add `cells_after { ... }` (or `cells_after_pre_rollback { ... }` + `cells_after_rollback { ... }` for transactional events)",
            ),
        );
        emit(out, d);
    }
    assert(dvs(out@) =~= dvs(old(out)@) + post_failure_spec(*block));
}

fn check_forbidden_state(block: &BlockDecl, out: &mut Vec<Diagnostic>)
    ensures
        dvs(final(out)@) == dvs(old(out)@) + forbidden_state_spec(*block),
{
    require_named(block, out, "forbidden_state");
    require_field(block, "description", out);
    let has_predicate = has_field(block, "predicate");
    let has_cells = has_field(block, "cells") || has_block(block, "cells");
    if !has_predicate && !has_cells {
        let msg = cat3(
            "forbidden_state `",
            block_name_or(block, "<unnamed>"),
            "` is missing a `predicate:` or `cells:` body",
        );
        let d = Diagnostic::error(codes::E_STRUCT_FORBIDDEN_STATE_BODY, block.span, msg).with_hint(
            owned("declare exactly one of `predicate: \"...\"` or `cells: { id: value, ... }`"),
        );
        emit(out, d);
    }
    let ghost mid = dvs(out@);
    require_field(block, "reachability", out);
    require_field(block, "kill_test", out);
    assert(dvs(out@) =~= dvs(old(out)@) + forbidden_state_spec(*block));
}

fn check_kill_test(block: &BlockDecl, out: &mut Vec<Diagnostic>)
    ensures
        dvs(final(out)@) == dvs(old(out)@) + kill_test_spec(*block),
{
    require_named(block, out, "kill_test");
    require_field(block, "forbidden", out);
    require_field(block, "kind", out);
    require_field(block, "assertion", out);
    if !has_field(block, "status") {
        let msg = cat3(
            "kill_test `",
            block_name_or(block, "<unnamed>"),
            "` has no explicit `status:`; defaulting to `declared`",
        );
        emit(out, Diagnostic::info(codes::I_STRUCT_KILL_TEST_TODO, block.span, msg));
    }
    assert(dvs(out@) =~= dvs(old(out)@) + kill_test_spec(*block));
}

// ---------------------------------------------------------------------------
// Helpers
// ---------------------------------------------------------------------------

fn require_named(block: &BlockDecl, out: &mut Vec<Diagnostic>, slot_kind: &str)
    ensures
        dvs(final(out)@) == dvs(old(out)@) + named_spec(*block, slot_kind@),
{
    if block.name.is_none() {
        let msg = cat3("`", slot_kind, "` block requires an identifier name");
        let hint = cat3("write `", slot_kind, " <id> { ... }`");
        emit(out, Diagnostic::error(codes::E_STRUCT_MISSING_FIELD, block.span, msg).with_hint(hint));
    } else {
        assert(dvs(out@) =~= dvs(old(out)@) + named_spec(*block, slot_kind@));
    }
}

fn require_field(block: &BlockDecl, key: &str, out: &mut Vec<Diagnostic>)
    ensures
        dvs(final(out)@) == dvs(old(out)@) + field_spec(*block, key@),
{
    if !has_field(block, key) {
        let msg = cat5("`", block.kind.name.as_str(), "` block missing required field `", key, ":`");
        emit(out, Diagnostic::error(codes::E_STRUCT_MISSING_FIELD, block.span, msg));
    } else {
        assert(dvs(out@) =~= dvs(old(out)@) + field_spec(*block, key@));
    }
}

fn block_name_or<'b>(block: &'b BlockDecl, fallback: &'b str) -> (r: &'b str)
    ensures
        r@ == name_or(*block, fallback@),
{
    match &block.name {
        Some(BlockName::Ident(i)) => i.name.as_str(),
        Some(BlockName::Int { .. }) => "<numeric>",
        None => fallback,
    }
}

// ---------------------------------------------------------------------------
// Laws
// ---------------------------------------------------------------------------

proof fn lemma_steps_spec_has(items: Seq<BlockItem>, j: int, d: DiagView)
    requires
        0 <= j < items.len(),
        items[j] is Block,
        items[j]->Block_0.kind.name@ == "step"@,
        (named_spec(items[j]->Block_0, "step"@) + field_spec(items[j]->Block_0, "op"@) + field_spec(
            items[j]->Block_0,
            "fallible"@,
        )).contains(d),
    ensures
        steps_spec(items).contains(d),
    decreases items.len(),
{
    let rest = items.drop_last();
    if j == items.len() - 1 {
        assert(items.last() == items[j]);
        crate::text::lemma_concat_contains(
            steps_spec(rest),
            named_spec(items[j]->Block_0, "step"@) + field_spec(items[j]->Block_0, "op"@) + field_spec(
                items[j]->Block_0,
                "fallible"@,
            ),
            d,
        );
    } else {
        assert(rest[j] == items[j]);
        lemma_steps_spec_has(rest, j, d);
        let k = choose|k: int| 0 <= k < steps_spec(rest).len() && steps_spec(rest)[k] == d;
        assert(steps_spec(items)[k] == d);
    }
}

proof fn lemma_items_spec_has(items: Seq<BlockItem>, i: int, d: DiagView)
    requires
        0 <= i < items.len(),
        items[i] is Block,
        slot_spec(items[i]->Block_0).contains(d),
    ensures
        items_spec(items).contains(d),
    decreases items.len(),
{
    let rest = items.drop_last();
    let tail = match items.last() {
        BlockItem::Block(b) => slot_spec(b),
        BlockItem::Field(_) => seq![],
    };
    if i == items.len() - 1 {
        assert(items.last() == items[i]);
        crate::text::lemma_concat_contains(items_spec(rest), tail, d);
    } else {
        assert(rest[i] == items[i]);
        lemma_items_spec_has(rest, i, d);
        crate::text::lemma_concat_contains(items_spec(rest), tail, d);
    }
}

/// Every `step` block of an event needs a `fallible:` field: for each one
/// without it, the structural pass reports a missing-field error at the
/// step, naming `fallible:`.
pub proof fn law_step_requires_fallible(file: File, i: int, j: int)
    requires
        file.slice is Some,
        0 <= i < file.slice->0.items@.len(),
        file.slice->0.items@[i] is Block,
        file.slice->0.items@[i]->Block_0.kind.name@ == "event"@,
        0 <= j < file.slice->0.items@[i]->Block_0.items@.len(),
        file.slice->0.items@[i]->Block_0.items@[j] is Block,
        file.slice->0.items@[i]->Block_0.items@[j]->Block_0.kind.name@ == "step"@,
        spec_field_value(file.slice->0.items@[i]->Block_0.items@[j]->Block_0, "fallible"@) is None,
    ensures
        structural_spec(file).contains(
            (
                codes::E_STRUCT_MISSING_FIELD@,
                Severity::Error,
                "`step` block missing required field `fallible:`"@,
                file.slice->0.items@[i]->Block_0.items@[j]->Block_0.span,
                None,
            ),
        ),
{
    let items = file.slice->0.items@;
    let ev = items[i]->Block_0;
    let st = ev.items@[j]->Block_0;
    let d: DiagView = (
        codes::E_STRUCT_MISSING_FIELD@,
        Severity::Error,
        "`step` block missing required field `fallible:`"@,
        st.span,
        None,
    );
    reveal_strlit("step");
    reveal_strlit("`");
    reveal_strlit("` block missing required field `");
    reveal_strlit("fallible");
    reveal_strlit(":`");
    reveal_strlit("`step` block missing required field `fallible:`");
    assert(("`"@ + st.kind.name@ + "` block missing required field `"@ + "fallible"@ + ":`"@)
        =~= "`step` block missing required field `fallible:`"@);
    assert(field_spec(st, "fallible"@) =~= seq![d]);
    assert(field_spec(st, "fallible"@)[0] == d);
    crate::text::lemma_concat_contains(named_spec(st, "step"@) + field_spec(st, "op"@), field_spec(st, "fallible"@), d);
    lemma_steps_spec_has(ev.items@, j, d);
    let pre = named_spec(ev, "event"@) + field_spec(ev, "mutates"@) + (if blocks_count(ev.items@, "step"@, 0) == 0 {
        seq![hinted(codes::E_STRUCT_EVENT_NO_STEPS, Severity::Error,
            "event `"@ + name_or(ev, "<unnamed>"@) + "` declares no `step` blocks"@, ev.span,
            "an event must contain at least one `step { ... }` block"@)]
    } else {
        seq![]
    });
    crate::text::lemma_concat_contains(pre, steps_spec(ev.items@), d);
    reveal_strlit("event");
    reveal_strlit("cell");
    reveal_strlit("derived");
    reveal_strlit("association");
    assert("event"@ != "cell"@ && "event"@ != "derived"@ && "event"@ != "association"@) by {
        assert("event"@[0] != "cell"@[0]);
        assert("event"@[0] != "derived"@[0]);
        assert("event"@[0] != "association"@[0]);
    }
    assert(slot_spec(ev) == event_spec(ev));
    lemma_items_spec_has(items, i, d);
}

/// The fields the grammar requires of each top-level slot kind.
pub open spec fn required_field(kind: Seq<char>, key: Seq<char>) -> bool {
    ||| kind == "cell"@ && (key == "type"@ || key == "mutable"@)
    ||| kind == "derived"@ && (key == "derives_from"@ || key == "derivation"@)
    ||| kind == "association"@ && (key == "invariant"@ || key == "over"@ || key == "enforced_by"@)
    ||| kind == "event"@ && key == "mutates"@
    ||| kind == "post_failure"@ && (key == "event"@ || key == "step"@ || key == "outcome"@)
    ||| kind == "forbidden_state"@ && (key == "description"@ || key == "reachability"@ || key == "kill_test"@)
    ||| kind == "kill_test"@ && (key == "forbidden"@ || key == "kind"@ || key == "assertion"@)
}

/// Every required field of a top-level slot block is checked: when a block
/// of such a kind lacks one, the structural pass reports a missing-field
/// error at the block, naming its kind and the field.
pub proof fn law_required_fields_are_reported(file: File, i: int, key: Seq<char>)
    requires
        file.slice is Some,
        0 <= i < file.slice->0.items@.len(),
        file.slice->0.items@[i] is Block,
        required_field(file.slice->0.items@[i]->Block_0.kind.name@, key),
        spec_field_value(file.slice->0.items@[i]->Block_0, key) is None,
    ensures
        structural_spec(file).contains(
            (
                codes::E_STRUCT_MISSING_FIELD@,
                Severity::Error,
                "`"@ + file.slice->0.items@[i]->Block_0.kind.name@ + "` block missing required field `"@ + key + ":`"@,
                file.slice->0.items@[i]->Block_0.span,
                None,
            ),
        ),
{
    let items = file.slice->0.items@;
    let b = items[i]->Block_0;
    let k = b.kind.name@;
    let d: DiagView = (
        codes::E_STRUCT_MISSING_FIELD@,
        Severity::Error,
        "`"@ + k + "` block missing required field `"@ + key + ":`"@,
        b.span,
        None,
    );
    crate::text::lemma_concat_contains_all::<DiagView>();
    assert(field_spec(b, key) =~= seq![d]);
    assert(field_spec(b, key)[0] == d);
    reveal_strlit("cell");
    reveal_strlit("derived");
    reveal_strlit("association");
    reveal_strlit("event");
    reveal_strlit("post_failure");
    reveal_strlit("forbidden_state");
    reveal_strlit("kill_test");
    if k == "cell"@ {
        assert(slot_spec(b) == named_spec(b, "cell"@) + field_spec(b, "type"@) + field_spec(b, "mutable"@));
    } else if k == "derived"@ {
        assert(k != "cell"@) by { assert(k[0] != "cell"@[0]); }
        assert(slot_spec(b) == named_spec(b, "derived"@) + field_spec(b, "derives_from"@) + field_spec(b, "derivation"@));
    } else if k == "association"@ {
        assert(k != "cell"@ && k != "derived"@) by { assert(k[0] != "cell"@[0] && k[0] != "derived"@[0]); }
    } else if k == "event"@ {
        assert(k != "cell"@ && k != "derived"@ && k != "association"@) by {
            assert(k[0] != "cell"@[0] && k[0] != "derived"@[0] && k[0] != "association"@[0]);
        }
        let pre = named_spec(b, "event"@) + field_spec(b, "mutates"@);
        assert(pre.contains(d));
    } else if k == "post_failure"@ {
        assert(k != "cell"@ && k != "derived"@ && k != "association"@ && k != "event"@) by {
            assert(k[0] != "cell"@[0] && k[0] != "derived"@[0] && k[0] != "association"@[0] && k[0] != "event"@[0]);
        }
        let pre = named_spec(b, "post_failure"@) + field_spec(b, "event"@) + field_spec(b, "step"@) + field_spec(
            b,
            "outcome"@,
        );
        assert(pre.contains(d));
    } else if k == "forbidden_state"@ {
        assert(k != "cell"@ && k != "derived"@ && k != "association"@ && k != "event"@ && k != "post_failure"@) by {
            assert(k[0] != "cell"@[0] && k[0] != "derived"@[0] && k[0] != "association"@[0] && k[0] != "event"@[0]
                && k[0] != "post_failure"@[0]);
        }
    } else {
        assert(k == "kill_test"@);
        assert(k != "cell"@ && k != "derived"@ && k != "association"@ && k != "event"@ && k != "post_failure"@
            && k != "forbidden_state"@) by {
            assert(k[0] != "cell"@[0] && k[0] != "derived"@[0] && k[0] != "association"@[0] && k[0] != "event"@[0]
                && k[0] != "post_failure"@[0] && k[0] != "forbidden_state"@[0]);
        }
        let pre = named_spec(b, "kill_test"@) + field_spec(b, "forbidden"@) + field_spec(b, "kind"@) + field_spec(
            b,
            "assertion"@,
        );
        assert(pre.contains(d));
    }
    assert(slot_spec(b).contains(d));
    lemma_items_spec_has(items, i, d);
}

} // verus!
