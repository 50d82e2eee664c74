//! The slot tree: the slice's declarations grouped by kind, each event
//! with its steps beneath it.

use vstd::prelude::*;

use crate::analysis::nav::kind_is;
use crate::ast::{BlockDecl, BlockItem, BlockName, SliceDecl};
use crate::text::{decimal_text, owned, u64_text};

verus! {

/// The kinds the slot tree lists, in its order.
pub open spec fn slot_kinds() -> Seq<Seq<char>> {
    seq![
        "cell"@,
        "derived"@,
        "association"@,
        "event"@,
        "post_failure"@,
        "forbidden_state"@,
        "kill_test"@,
    ]
}

/// The display name of a declaration kind.
pub open spec fn spec_kind_pretty(k: Seq<char>) -> Seq<char> {
    if k == "cell"@ {
        "Cell"@
    } else if k == "derived"@ {
        "Derived"@
    } else if k == "association"@ {
        "Association"@
    } else if k == "event"@ {
        "Event"@
    } else if k == "post_failure"@ {
        "Post-failure"@
    } else if k == "forbidden_state"@ {
        "Forbidden state"@
    } else if k == "kill_test"@ {
        "Kill-test"@
    } else {
        "Other"@
    }
}

pub fn kind_pretty(kind: &str) -> (r: &'static str)
    ensures
        r@ == spec_kind_pretty(kind@),
{
    let k = owned(kind);
    if crate::text::is_lit(&k, "cell") {
        "Cell"
    } else if crate::text::is_lit(&k, "derived") {
        "Derived"
    } else if crate::text::is_lit(&k, "association") {
        "Association"
    } else if crate::text::is_lit(&k, "event") {
        "Event"
    } else if crate::text::is_lit(&k, "post_failure") {
        "Post-failure"
    } else if crate::text::is_lit(&k, "forbidden_state") {
        "Forbidden state"
    } else if crate::text::is_lit(&k, "kill_test") {
        "Kill-test"
    } else {
        "Other"
    }
}

/// The icon the slot tree shows before a declaration of kind `k`.
pub open spec fn spec_icon_for_kind(k: Seq<char>) -> Seq<char> {
    if k == "cell"@ {
        "·"@
    } else if k == "derived"@ {
        "≡"@
    } else if k == "association"@ {
        "↔"@
    } else if k == "event"@ {
        "⚡"@
    } else if k == "post_failure"@ {
        "📜"@
    } else if k == "forbidden_state"@ {
        "⛔"@
    } else if k == "kill_test"@ {
        "🎯"@
    } else {
        "?"@
    }
}

pub fn icon_for_kind(kind: &str) -> (r: &'static str)
    ensures
        r@ == spec_icon_for_kind(kind@),
{
    let k = owned(kind);
    if crate::text::is_lit(&k, "cell") {
        "·"
    } else if crate::text::is_lit(&k, "derived") {
        "≡"
    } else if crate::text::is_lit(&k, "association") {
        "↔"
    } else if crate::text::is_lit(&k, "event") {
        "⚡"
    } else if crate::text::is_lit(&k, "post_failure") {
        "📜"
    } else if crate::text::is_lit(&k, "forbidden_state") {
        "⛔"
    } else if crate::text::is_lit(&k, "kill_test") {
        "🎯"
    } else {
        "?"
    }
}

/// What selecting a slot row shows.
#[derive(Clone, Debug)]
pub enum SlotTarget {
    /// A top-level declaration of the slice.
    Block { id: String },
    /// A step of an event.
    Step { event: String, step: String },
}

/// One row of the slot tree.
#[derive(Clone, Debug)]
pub struct SlotRow {
    pub indent: usize,
    pub label: String,
    pub target: Option<SlotTarget>,
}

/// A target as plain values: the declaration's name, and the step's name
/// for a step.
pub type TargetView = (Seq<char>, Option<Seq<char>>);

pub open spec fn target_view(t: SlotTarget) -> TargetView {
    match t {
        SlotTarget::Block { id } => (id@, None),
        SlotTarget::Step { event, step } => (event@, Some(step@)),
    }
}

/// A row as plain values: indent, label, target.
pub type RowView = (nat, Seq<char>, Option<TargetView>);

pub open spec fn row_view(r: SlotRow) -> RowView {
    (
        r.indent as nat,
        r.label@,
        match r.target {
            Some(t) => Some(target_view(t)),
            None => None,
        },
    )
}

pub open spec fn rows_view(rs: Seq<SlotRow>) -> Seq<RowView> {
    rs.map_values(|r: SlotRow| row_view(r))
}

/// Number of blocks of kind `k` among `items`.
pub open spec fn kind_count(items: Seq<BlockItem>, k: Seq<char>) -> nat
    decreases items.len(),
{
    if items.len() == 0 {
        0
    } else {
        kind_count(items.drop_last(), k) + match items.last() {
            BlockItem::Block(b) => if b.kind.name@ == k {
                1nat
            } else {
                0nat
            },
            _ => 0nat,
        }
    }
}

/// The rows of the named steps of the event `event`.
pub open spec fn step_rows(event: Seq<char>, items: Seq<BlockItem>) -> Seq<RowView>
    decreases items.len(),
{
    if items.len() == 0 {
        seq![]
    } else {
        step_rows(event, items.drop_last()) + match items.last() {
            BlockItem::Block(s) => if s.kind.name@ == "step"@ {
                match s.name {
                    Some(BlockName::Ident(n)) => seq![(2nat, "  ↳ step "@ + n.name@, Some((event, Some(n.name@))))],
                    _ => seq![],
                }
            } else {
                seq![]
            },
            _ => seq![],
        }
    }
}

/// The rows of one named declaration of kind `k`: its own, then, for an
/// event, its steps'.
pub open spec fn decl_rows(k: Seq<char>, b: BlockDecl) -> Seq<RowView> {
    match b.name {
        Some(BlockName::Ident(n)) => seq![(1nat, spec_icon_for_kind(k) + " "@ + n.name@, Some((n.name@, None)))]
            + if k == "event"@ {
            step_rows(n.name@, b.items@)
        } else {
            seq![]
        },
        _ => seq![],
    }
}

pub open spec fn kind_rows(k: Seq<char>, items: Seq<BlockItem>) -> Seq<RowView>
    decreases items.len(),
{
    if items.len() == 0 {
        seq![]
    } else {
        kind_rows(k, items.drop_last()) + match items.last() {
            BlockItem::Block(b) => if b.kind.name@ == k {
                decl_rows(k, b)
            } else {
                seq![]
            },
            _ => seq![],
        }
    }
}

/// The section of kind `k`: nothing without such declarations, else a
/// heading with their number, then their rows.
pub open spec fn kind_section(k: Seq<char>, items: Seq<BlockItem>) -> Seq<RowView> {
    if kind_count(items, k) == 0 {
        seq![]
    } else {
        seq![(0nat, "▼ "@ + spec_kind_pretty(k) + "s ("@ + decimal_text(kind_count(items, k)) + ")"@, None)]
            + kind_rows(k, items)
    }
}

pub open spec fn sections_upto(items: Seq<BlockItem>, n: int) -> Seq<RowView>
    decreases n,
{
    if n <= 0 {
        seq![]
    } else {
        sections_upto(items, n - 1) + kind_section(slot_kinds()[n - 1], items)
    }
}

/// The slot tree of a slice.
pub open spec fn spec_slot_rows(s: SliceDecl) -> Seq<RowView> {
    sections_upto(s.items@, 7)
}

proof fn lemma_kind_count_bound(items: Seq<BlockItem>, k: Seq<char>)
    ensures
        kind_count(items, k) <= items.len(),
    decreases items.len(),
{
    if items.len() > 0 {
        lemma_kind_count_bound(items.drop_last(), k);
    }
}

pub fn count_kind(items: &Vec<BlockItem>, kind: &str) -> (n: usize)
    ensures
        n == kind_count(items@, kind@),
{
    let mut n: usize = 0;
    let mut i: usize = 0;
    while i < items.len()
        invariant
            i <= items@.len(),
            n == kind_count(items@.subrange(0, i as int), kind@),
        decreases items@.len() - i,
    {
        assert(items@.subrange(0, i as int + 1).drop_last() =~= items@.subrange(0, i as int));
        proof {
            lemma_kind_count_bound(items@.subrange(0, i as int), kind@);
        }
        match &items[i] {
            BlockItem::Block(b) => {
                if kind_is(b, kind) {
                    n = n + 1;
                }
            },
            _ => {},
        }
        i = i + 1;
    }
    assert(items@.subrange(0, items@.len() as int) =~= items@);
    n
}

fn push_step_rows(event: &str, items: &Vec<BlockItem>, rows: &mut Vec<SlotRow>)
    ensures
        rows_view(final(rows)@) == rows_view(old(rows)@) + step_rows(event@, items@),
{
    let ghost start = rows_view(rows@);
    let mut i: usize = 0;
    while i < items.len()
        invariant
            i <= items@.len(),
            rows_view(rows@) == start + step_rows(event@, items@.subrange(0, i as int)),
        decreases items@.len() - i,
    {
        assert(items@.subrange(0, i as int + 1).drop_last() =~= items@.subrange(0, i as int));
        let ghost before = rows@;
        match &items[i] {
            BlockItem::Block(s) => {
                if kind_is(s, "step") {
                    match &s.name {
                        Some(BlockName::Ident(n)) => {
                            let mut label = owned("  ↳ step ");
                            label.append(n.name.as_str());
                            rows.push(
                                SlotRow {
                                    indent: 2,
                                    label,
                                    target: Some(SlotTarget::Step { event: owned(event), step: n.name.clone() }),
                                },
                            );
                            assert(rows_view(rows@) =~= rows_view(before) + seq![row_view(rows@.last())]);
                        },
                        _ => {},
                    }
                }
            },
            _ => {},
        }
        assert(rows_view(rows@) =~= start + step_rows(event@, items@.subrange(0, i as int + 1)));
        i = i + 1;
    }
    assert(items@.subrange(0, items@.len() as int) =~= items@);
}

fn push_decl_rows(kind: &str, b: &BlockDecl, rows: &mut Vec<SlotRow>)
    ensures
        rows_view(final(rows)@) == rows_view(old(rows)@) + decl_rows(kind@, *b),
{
    let ghost start = rows_view(rows@);
    match &b.name {
        Some(BlockName::Ident(n)) => {
            let mut label = owned(icon_for_kind(kind));
            label.append(" ");
            label.append(n.name.as_str());
            rows.push(SlotRow { indent: 1, label, target: Some(SlotTarget::Block { id: n.name.clone() }) });
            let ghost mid = rows_view(rows@);
            assert(mid =~= start + seq![row_view(rows@.last())]);
            if crate::text::str_eq(kind, "event") {
                push_step_rows(n.name.as_str(), &b.items, rows);
            }
            assert(rows_view(rows@) =~= start + decl_rows(kind@, *b));
        },
        _ => {
            assert(rows_view(rows@) =~= start + decl_rows(kind@, *b));
        },
    }
}

fn push_kind_section(kind: &str, items: &Vec<BlockItem>, rows: &mut Vec<SlotRow>)
    ensures
        rows_view(final(rows)@) == rows_view(old(rows)@) + kind_section(kind@, items@),
{
    let ghost start = rows_view(rows@);
    let n = count_kind(items, kind);
    if n == 0 {
        assert(rows_view(rows@) =~= start + kind_section(kind@, items@));
        return;
    }
    let mut label = owned("▼ ");
    label.append(kind_pretty(kind));
    label.append("s (");
    let t = u64_text(n as u64);
    label.append(t.as_str());
    label.append(")");
    rows.push(SlotRow { indent: 0, label, target: None });
    let ghost head = rows_view(rows@);
    assert(head =~= start + seq![row_view(rows@.last())]);
    let mut i: usize = 0;
    while i < items.len()
        invariant
            i <= items@.len(),
            rows_view(rows@) == head + kind_rows(kind@, items@.subrange(0, i as int)),
        decreases items@.len() - i,
    {
        assert(items@.subrange(0, i as int + 1).drop_last() =~= items@.subrange(0, i as int));
        let ghost before = rows_view(rows@);
        match &items[i] {
            BlockItem::Block(b) => {
                if kind_is(b, kind) {
                    push_decl_rows(kind, b, rows);
                }
            },
            _ => {},
        }
        assert(rows_view(rows@) =~= head + kind_rows(kind@, items@.subrange(0, i as int + 1)));
        i = i + 1;
    }
    assert(items@.subrange(0, items@.len() as int) =~= items@);
    assert(rows_view(rows@) =~= start + kind_section(kind@, items@));
}

/// The slot tree of the slice: for each kind in the tree's order that the
/// slice declares, a heading with the number of such declarations, then a
/// row per named one, an event's named steps beneath it.
pub fn slot_rows(slice: &SliceDecl) -> (rows: Vec<SlotRow>)
    ensures
        rows_view(rows@) == spec_slot_rows(*slice),
{
    let mut rows: Vec<SlotRow> = Vec::new();
    let items = &slice.items;
    assert(rows_view(rows@) =~= sections_upto(items@, 0));
    push_kind_section("cell", items, &mut rows);
    assert(rows_view(rows@) =~= sections_upto(items@, 1));
    push_kind_section("derived", items, &mut rows);
    assert(rows_view(rows@) =~= sections_upto(items@, 2));
    push_kind_section("association", items, &mut rows);
    assert(rows_view(rows@) =~= sections_upto(items@, 3));
    push_kind_section("event", items, &mut rows);
    assert(rows_view(rows@) =~= sections_upto(items@, 4));
    push_kind_section("post_failure", items, &mut rows);
    assert(rows_view(rows@) =~= sections_upto(items@, 5));
    push_kind_section("forbidden_state", items, &mut rows);
    assert(rows_view(rows@) =~= sections_upto(items@, 6));
    push_kind_section("kill_test", items, &mut rows);
    assert(rows_view(rows@) =~= sections_upto(items@, 7));
    rows
}

} // verus!
