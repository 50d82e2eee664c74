//! Agent-facing inspection surface (`memspec query`).
//!
//! Four subqueries, all on the AST alone:
//! - [`list_ids`]: every declared ID, grouped by slot kind;
//! - [`by_id`]: the declaration of one ID (a top-level block, or a step
//!   of an event);
//! - [`refs_to`]: every site that points at an ID, with a path-like
//!   locator of where it sits;
//! - [`gaps`]: unkilled forbidden states, kill-tests not yet passing,
//!   missing post_failure rows and unused cells.

use vstd::prelude::*;

use crate::analysis::index::{
    build_index, index_lookup, indexes, is_named, item_name, last_decl, lemma_last_decl,
    lemma_lookup_is_last_decl,
};
use crate::analysis::nav::{
    block_name_ident, block_name_str, field_ident, field_is_true, field_value, kind_is,
    spec_block_name_ident, spec_field_ident, spec_field_value,
};
use crate::analysis::symmetric_failure::{
    collect_steps, event_in_scope, fallible_count, find_post_failure, is_observable, item_block,
    lemma_step_indices_are_blocks, missing_row_diag, needs_row, observable, pf_find, step_diags,
    steps_diags, event_diags, items_diags, symmetric_spec, step_indices,
};
use crate::diagnostic::codes;
use crate::diagnostic::{DiagView, Severity, hinted};
use crate::ast::{BlockDecl, BlockItem, BlockName, FieldValue, File, MapEntry};
use crate::span::Span;
use crate::text::{cat, cat3, i64_text, int_text, is_lit, name_lt, owned, str_eq};

verus! {

/// The character sequences of a list of strings.
pub open spec fn strs(v: Seq<String>) -> Seq<Seq<char>> {
    v.map_values(|s: String| s@)
}

pub open spec fn opt_str(o: Option<String>) -> Option<Seq<char>> {
    match o {
        Some(s) => Some(s@),
        None => None,
    }
}

// ---------------------------------------------------------------------------
// list-ids
// ---------------------------------------------------------------------------

pub struct ListIdsReport {
    pub slice: Option<String>,
    pub cells: Vec<String>,
    pub derived: Vec<String>,
    pub associations: Vec<String>,
    pub events: Vec<EventListing>,
    pub post_failures: Vec<String>,
    pub forbidden_states: Vec<String>,
    pub kill_tests: Vec<String>,
    pub walks: Vec<i64>,
}

pub struct EventListing {
    pub id: String,
    pub steps: Vec<String>,
}

/// Names of the `kind` blocks with identifier names, in order.
pub open spec fn names_of(items: Seq<BlockItem>, kind: Seq<char>) -> Seq<Seq<char>>
    decreases items.len(),
{
    if items.len() == 0 {
        seq![]
    } else {
        names_of(items.drop_last(), kind) + if is_named(items.last(), kind) {
            seq![item_name(items.last())]
        } else {
            seq![]
        }
    }
}

pub open spec fn listing_view(e: EventListing) -> (Seq<char>, Seq<Seq<char>>) {
    (e.id@, strs(e.steps@))
}

/// Each named event with the names of its named steps, in order.
pub open spec fn event_listings(items: Seq<BlockItem>) -> Seq<(Seq<char>, Seq<Seq<char>>)>
    decreases items.len(),
{
    if items.len() == 0 {
        seq![]
    } else {
        event_listings(items.drop_last()) + if is_named(items.last(), "event"@) {
            seq![(item_name(items.last()), names_of(items.last()->Block_0.items@, "step"@))]
        } else {
            seq![]
        }
    }
}

/// The number of a `walk N` block, if the item is one.
pub open spec fn walk_of_item(it: BlockItem) -> Seq<i64> {
    match it {
        BlockItem::Block(b) => if b.kind.name@ == "walk"@ {
            match b.name {
                Some(BlockName::Int { value, .. }) => seq![value],
                _ => seq![],
            }
        } else {
            seq![]
        },
        _ => seq![],
    }
}

/// The numbers of the `walk N` blocks, in order.
pub open spec fn walks_of(items: Seq<BlockItem>) -> Seq<i64>
    decreases items.len(),
{
    if items.len() == 0 {
        seq![]
    } else {
        walks_of(items.drop_last()) + walk_of_item(items.last())
    }
}

proof fn lemma_prefix_step(items: Seq<BlockItem>, i: int)
    requires
        0 <= i < items.len(),
    ensures
        items.subrange(0, i + 1).drop_last() == items.subrange(0, i),
        items.subrange(0, i + 1).last() == items[i],
{
    assert(items.subrange(0, i + 1).drop_last() =~= items.subrange(0, i));
}

/// Append the block's name when it is of kind `kind` with an identifier
/// name.
fn push_named(out: &mut Vec<String>, it: &BlockItem, kind: &str)
    ensures
        strs(final(out)@) == strs(old(out)@) + if is_named(*it, kind@) {
            seq![item_name(*it)]
        } else {
            seq![]
        },
{
    match it {
        BlockItem::Block(b) => {
            if kind_is(b, kind) {
                match block_name_str(b) {
                    Some(n) => {
                        out.push(owned(n));
                        assert(strs(out@) =~= strs(old(out)@) + seq![item_name(*it)]);
                        return;
                    },
                    None => {},
                }
            }
        },
        _ => {},
    }
    assert(strs(out@) =~= strs(old(out)@));
}

fn push_walk(out: &mut Vec<i64>, it: &BlockItem)
    ensures
        final(out)@ == old(out)@ + walk_of_item(*it),
{
    match it {
        BlockItem::Block(b) => {
            if kind_is(b, "walk") {
                match &b.name {
                    Some(BlockName::Int { value, .. }) => {
                        out.push(*value);
                        assert(out@ =~= old(out)@ + walk_of_item(*it));
                        return;
                    },
                    _ => {},
                }
            }
        },
        _ => {},
    }
    assert(out@ =~= old(out)@ + walk_of_item(*it));
}

/// Names of the named steps of an event block.
fn step_name_list(b: &BlockDecl) -> (r: Vec<String>)
    ensures
        strs(r@) == names_of(b.items@, "step"@),
{
    let mut r: Vec<String> = Vec::new();
    let mut i: usize = 0;
    while i < b.items.len()
        invariant
            i <= b.items@.len(),
            strs(r@) == names_of(b.items@.subrange(0, i as int), "step"@),
        decreases b.items@.len() - i,
    {
        proof {
            lemma_prefix_step(b.items@, i as int);
        }
        push_named(&mut r, &b.items[i], "step");
        i = i + 1;
    }
    assert(b.items@.subrange(0, b.items@.len() as int) =~= b.items@);
    r
}

/// Every declared ID, grouped by slot kind, in declaration order.
pub fn list_ids(file: &File) -> (r: ListIdsReport)
    ensures
        match file.slice {
            None => {
                &&& r.slice is None
                &&& r.cells@.len() == 0 && r.derived@.len() == 0 && r.associations@.len() == 0
                &&& r.events@.len() == 0 && r.post_failures@.len() == 0
                &&& r.forbidden_states@.len() == 0 && r.kill_tests@.len() == 0 && r.walks@.len() == 0
            },
            Some(s) => {
                &&& opt_str(r.slice) == Some(s.name.name@)
                &&& strs(r.cells@) == names_of(s.items@, "cell"@)
                &&& strs(r.derived@) == names_of(s.items@, "derived"@)
                &&& strs(r.associations@) == names_of(s.items@, "association"@)
                &&& r.events@.map_values(|e: EventListing| listing_view(e)) == event_listings(s.items@)
                &&& strs(r.post_failures@) == names_of(s.items@, "post_failure"@)
                &&& strs(r.forbidden_states@) == names_of(s.items@, "forbidden_state"@)
                &&& strs(r.kill_tests@) == names_of(s.items@, "kill_test"@)
                &&& r.walks@ == walks_of(s.items@)
            },
        },
{
    let mut report = ListIdsReport {
        slice: None,
        cells: Vec::new(),
        derived: Vec::new(),
        associations: Vec::new(),
        events: Vec::new(),
        post_failures: Vec::new(),
        forbidden_states: Vec::new(),
        kill_tests: Vec::new(),
        walks: Vec::new(),
    };
    let slice = match &file.slice {
        Some(s) => s,
        None => return report,
    };
    report.slice = Some(owned(slice.name.name.as_str()));
    let items = &slice.items;
    let mut i: usize = 0;
    while i < items.len()
        invariant
            i <= items@.len(),
            items@ == slice.items@,
            opt_str(report.slice) == Some(slice.name.name@),
            strs(report.cells@) == names_of(items@.subrange(0, i as int), "cell"@),
            strs(report.derived@) == names_of(items@.subrange(0, i as int), "derived"@),
            strs(report.associations@) == names_of(items@.subrange(0, i as int), "association"@),
            report.events@.map_values(|e: EventListing| listing_view(e)) == event_listings(
                items@.subrange(0, i as int),
            ),
            strs(report.post_failures@) == names_of(items@.subrange(0, i as int), "post_failure"@),
            strs(report.forbidden_states@) == names_of(
                items@.subrange(0, i as int),
                "forbidden_state"@,
            ),
            strs(report.kill_tests@) == names_of(items@.subrange(0, i as int), "kill_test"@),
            report.walks@ == walks_of(items@.subrange(0, i as int)),
        decreases items@.len() - i,
    {
        proof {
            lemma_prefix_step(items@, i as int);
        }
        let it = &items[i];
        push_named(&mut report.cells, it, "cell");
        push_named(&mut report.derived, it, "derived");
        push_named(&mut report.associations, it, "association");
        push_named(&mut report.post_failures, it, "post_failure");
        push_named(&mut report.forbidden_states, it, "forbidden_state");
        push_named(&mut report.kill_tests, it, "kill_test");
        let ghost ev0 = report.events@;
        push_walk(&mut report.walks, it);
        match it {
            BlockItem::Block(b) => {
                if kind_is(b, "event") {
                    match block_name_str(b) {
                        Some(n) => {
                            let steps = step_name_list(b);
                            report.events.push(EventListing { id: owned(n), steps });
                        },
                        None => {},
                    }
                }
            },
            _ => {},
        }
        assert(report.events@.map_values(|e: EventListing| listing_view(e)) =~= event_listings(
            items@.subrange(0, i as int + 1),
        )) by {
            assert(ev0.map_values(|e: EventListing| listing_view(e)) == event_listings(
                items@.subrange(0, i as int),
            ));
        }
        i = i + 1;
    }
    assert(items@.subrange(0, items@.len() as int) =~= items@);
    report
}

// ---------------------------------------------------------------------------
// by-id
// ---------------------------------------------------------------------------

pub struct ByIdReport<'a> {
    pub id: String,
    pub kind: String,
    pub span: Span,
    pub block: &'a BlockDecl,
}

/// The first named step at or after `j` called `id`.
pub open spec fn step_named_from(items: Seq<BlockItem>, id: Seq<char>, j: int) -> Option<BlockDecl>
    decreases items.len() - j,
{
    if j < 0 || j >= items.len() {
        None
    } else if is_named(items[j], "step"@) && item_name(items[j]) == id {
        Some(items[j]->Block_0)
    } else {
        step_named_from(items, id, j + 1)
    }
}

/// What `by_id` finds scanning the top-level items from `i`: a named block
/// called `id` (its id, kind, span and block), or a step called `id` inside
/// a named event (reported as `event.step` of kind `step`); the first hit
/// wins.
pub open spec fn by_id_from(items: Seq<BlockItem>, id: Seq<char>, i: int) -> Option<
    (Seq<char>, Seq<char>, Span, BlockDecl),
>
    decreases items.len() - i,
{
    if i < 0 || i >= items.len() {
        None
    } else if items[i] is Block && spec_block_name_ident(items[i]->Block_0) is Some {
        let b = items[i]->Block_0;
        let name = spec_block_name_ident(b)->0.name@;
        if name == id {
            Some((id, b.kind.name@, b.span, b))
        } else if b.kind.name@ == "event"@ {
            match step_named_from(b.items@, id, 0) {
                Some(st) => Some((name + "."@ + id, "step"@, st.span, st)),
                None => by_id_from(items, id, i + 1),
            }
        } else {
            by_id_from(items, id, i + 1)
        }
    } else {
        by_id_from(items, id, i + 1)
    }
}

fn find_step_named<'a>(b: &'a BlockDecl, id: &str) -> (r: Option<&'a BlockDecl>)
    ensures
        match r {
            Some(st) => step_named_from(b.items@, id@, 0) == Some(*st),
            None => step_named_from(b.items@, id@, 0) is None,
        },
{
    let items = &b.items;
    let mut j: usize = 0;
    while j < items.len()
        invariant
            j <= items@.len(),
            items@ == b.items@,
            step_named_from(items@, id@, 0) == step_named_from(items@, id@, j as int),
        decreases items@.len() - j,
    {
        match &items[j] {
            BlockItem::Block(st) => {
                if kind_is(st, "step") {
                    match block_name_str(st) {
                        Some(n) => {
                            if str_eq(n, id) {
                                return Some(st);
                            }
                        },
                        None => {},
                    }
                }
            },
            _ => {},
        }
        j = j + 1;
    }
    None
}

/// The declaration of `id`: the first named top-level block of that name,
/// or the first step of that name inside a named event met before it.
pub fn by_id<'a>(file: &'a File, id: &str) -> (r: Option<ByIdReport<'a>>)
    ensures
        match file.slice {
            None => r is None,
            Some(s) => match r {
                None => by_id_from(s.items@, id@, 0) is None,
                Some(rep) => by_id_from(s.items@, id@, 0) == Some(
                    (rep.id@, rep.kind@, rep.span, *rep.block),
                ),
            },
        },
{
    let slice = match &file.slice {
        Some(s) => s,
        None => return None,
    };
    let items = &slice.items;
    let mut i: usize = 0;
    while i < items.len()
        invariant
            i <= items@.len(),
            items@ == slice.items@,
            file.slice == Some(*slice),
            by_id_from(items@, id@, 0) == by_id_from(items@, id@, i as int),
        decreases items@.len() - i,
    {
        match &items[i] {
            BlockItem::Block(b) => {
                assert(items@[i as int] == BlockItem::Block(*b));
                match block_name_str(b) {
                    Some(name) => {
                        if str_eq(name, id) {
                            assert(by_id_from(items@, id@, i as int) == Some((id@, b.kind.name@, b.span, *b)));
                            return Some(
                                ByIdReport { id: owned(id), kind: owned(b.kind.name.as_str()), span: b.span, block: b },
                            );
                        }
                        if kind_is(b, "event") {
                            match find_step_named(b, id) {
                                Some(st) => {
                                    let full = cat3(name, ".", id);
                                    proof {
                                        reveal_strlit(".");
                                    }
                                    return Some(
                                        ByIdReport { id: full, kind: owned("step"), span: st.span, block: st },
                                    );
                                },
                                None => {},
                            }
                        }
                    },
                    None => {},
                }
            },
            _ => {},
        }
        i = i + 1;
    }
    None
}

// ---------------------------------------------------------------------------
// refs-to
// ---------------------------------------------------------------------------

pub struct RefsReport {
    pub id: String,
    pub references: Vec<RefSite>,
}

#[derive(Debug)]
pub struct RefSite {
    /// Path-like locator: `event/promote/mutates` style, the owning
    /// top-level block's kind and name, then each nested block's.
    pub from: String,
    pub field: String,
    pub span: Span,
}

/// A reference site as plain values: locator, field, span.
pub type RefView = (Seq<char>, Seq<char>, Span);

pub open spec fn ref_view(r: RefSite) -> RefView {
    (r.from@, r.field@, r.span)
}

pub open spec fn refs_view(v: Seq<RefSite>) -> Seq<RefView> {
    v.map_values(|r: RefSite| ref_view(r))
}

/// Sites inside a field value that name `target`: identifiers (also inside
/// lists, type-application parameters and call arguments) and map keys
/// (reported under `field.<map-key>`); map values are searched too.
pub open spec fn value_refs(v: FieldValue, owner: Seq<char>, field: Seq<char>, target: Seq<char>) -> Seq<
    RefView,
>
    decreases v, 1int,
{
    match v {
        FieldValue::Ident(i) => if i.name@ == target {
            seq![(owner, field, i.span)]
        } else {
            seq![]
        },
        FieldValue::List { items, .. } => values_refs(items@, owner, field, target),
        FieldValue::Mapping { entries, .. } => entries_refs(entries@, owner, field, target),
        FieldValue::TypeApp { params, .. } => values_refs(params@, owner, field, target),
        FieldValue::Call { args, .. } => values_refs(args@, owner, field, target),
        _ => seq![],
    }
}

pub open spec fn values_refs(s: Seq<FieldValue>, owner: Seq<char>, field: Seq<char>, target: Seq<char>) -> Seq<
    RefView,
>
    decreases s, 0int,
{
    if s.len() == 0 {
        seq![]
    } else {
        values_refs(s.drop_last(), owner, field, target) + value_refs(s.last(), owner, field, target)
    }
}

pub open spec fn entries_refs(s: Seq<MapEntry>, owner: Seq<char>, field: Seq<char>, target: Seq<char>) -> Seq<
    RefView,
>
    decreases s, 0int,
{
    if s.len() == 0 {
        seq![]
    } else {
        let e = s.last();
        entries_refs(s.drop_last(), owner, field, target) + (if e.key.name@ == target {
            seq![(owner, field + ".<map-key>"@, e.key.span)]
        } else {
            seq![]
        }) + value_refs(e.value, owner, field, target)
    }
}

/// Locator of a nested block under `owner`: its kind, then its name when
/// it has one.
pub open spec fn inner_path(owner: Seq<char>, b: BlockDecl) -> Seq<char> {
    match b.name {
        Some(BlockName::Ident(i)) => owner + "/"@ + b.kind.name@ + "/"@ + i.name@,
        Some(BlockName::Int { value, .. }) => owner + "/"@ + b.kind.name@ + "/"@ + int_text(value as int),
        None => owner + "/"@ + b.kind.name@,
    }
}

pub open spec fn block_refs(b: BlockDecl, owner: Seq<char>, target: Seq<char>) -> Seq<RefView>
    decreases b, 1int,
{
    items_refs(b.items@, owner, target)
}

pub open spec fn items_refs(s: Seq<BlockItem>, owner: Seq<char>, target: Seq<char>) -> Seq<RefView>
    decreases s, 0int,
{
    if s.len() == 0 {
        seq![]
    } else {
        items_refs(s.drop_last(), owner, target) + match s.last() {
            BlockItem::Field(f) => value_refs(f.value, owner, f.key.name@, target),
            BlockItem::Block(inner) => block_refs(inner, inner_path(owner, inner), target),
        }
    }
}

/// Locator of a top-level block: `kind/name`, or `kind/<anon>`.
pub open spec fn owner_path(b: BlockDecl) -> Seq<char> {
    b.kind.name@ + "/"@ + match spec_block_name_ident(b) {
        Some(i) => i.name@,
        None => "<anon>"@,
    }
}

pub open spec fn top_refs(s: Seq<BlockItem>, target: Seq<char>) -> Seq<RefView>
    decreases s.len(),
{
    if s.len() == 0 {
        seq![]
    } else {
        top_refs(s.drop_last(), target) + match s.last() {
            BlockItem::Block(b) => block_refs(b, owner_path(b), target),
            _ => seq![],
        }
    }
}

fn scan_value_refs(value: &FieldValue, owner: &str, field: &str, target: &str, out: &mut Vec<RefSite>)
    ensures
        refs_view(final(out)@) == refs_view(old(out)@) + value_refs(*value, owner@, field@, target@),
    decreases value,
{
    match value {
        FieldValue::Ident(i) => {
            if str_eq(i.name.as_str(), target) {
                out.push(RefSite { from: owned(owner), field: owned(field), span: i.span });
            }
            assert(refs_view(out@) =~= refs_view(old(out)@) + value_refs(*value, owner@, field@, target@));
        },
        FieldValue::List { items, .. } => {
            scan_values_refs(value, items, owner, field, target, out);
        },
        FieldValue::TypeApp { params, .. } => {
            scan_values_refs(value, params, owner, field, target, out);
        },
        FieldValue::Call { args, .. } => {
            scan_values_refs(value, args, owner, field, target, out);
        },
        FieldValue::Mapping { entries, .. } => {
            let mut k: usize = 0;
            while k < entries.len()
                invariant
                    k <= entries@.len(),
                    *value == (FieldValue::Mapping { span: value->Mapping_span, entries: *entries }),
                    value_refs(*value, owner@, field@, target@) == entries_refs(entries@, owner@, field@, target@),
                    refs_view(out@) == refs_view(old(out)@) + entries_refs(
                        entries@.subrange(0, k as int),
                        owner@,
                        field@,
                        target@,
                    ),
                decreases entries@.len() - k,
            {
                let e = &entries[k];
                proof {
                    assert(entries@.subrange(0, k as int + 1).drop_last() =~= entries@.subrange(0, k as int));
                    assert(decreases_to!(*value => *entries));
                    assert(decreases_to!(*entries => entries@));
                    assert(decreases_to!(entries@ => entries@[k as int]));
                    assert(decreases_to!(entries@[k as int] => entries@[k as int].value));
                    assert(decreases_to!(*value => entries@[k as int].value));
                }
                let ghost o = out@;
                if str_eq(e.key.name.as_str(), target) {
                    out.push(RefSite { from: owned(owner), field: cat(field, ".<map-key>"), span: e.key.span });
                }
                let ghost mid = out@;
                assert(refs_view(mid) =~= refs_view(o) + if e.key.name@ == target@ {
                    seq![(owner@, field@ + ".<map-key>"@, e.key.span)]
                } else {
                    seq![]
                });
                scan_value_refs(&e.value, owner, field, target, out);
                k = k + 1;
            }
            assert(entries@.subrange(0, entries@.len() as int) =~= entries@);
        },
        _ => {
            assert(refs_view(out@) =~= refs_view(old(out)@) + value_refs(*value, owner@, field@, target@));
        },
    }
}

fn scan_values_refs(
    parent: &FieldValue,
    vals: &Vec<FieldValue>,
    owner: &str,
    field: &str,
    target: &str,
    out: &mut Vec<RefSite>,
)
    requires
        value_refs(*parent, owner@, field@, target@) == values_refs(vals@, owner@, field@, target@),
        forall|k: int| 0 <= k < vals@.len() ==> decreases_to!(*parent => #[trigger] vals@[k]),
    ensures
        refs_view(final(out)@) == refs_view(old(out)@) + value_refs(*parent, owner@, field@, target@),
    decreases parent, 0int,
{
    let mut k: usize = 0;
    while k < vals.len()
        invariant
            k <= vals@.len(),
            value_refs(*parent, owner@, field@, target@) == values_refs(vals@, owner@, field@, target@),
            forall|q: int| 0 <= q < vals@.len() ==> decreases_to!(*parent => #[trigger] vals@[q]),
            refs_view(out@) == refs_view(old(out)@) + values_refs(
                vals@.subrange(0, k as int),
                owner@,
                field@,
                target@,
            ),
        decreases vals@.len() - k,
    {
        proof {
            assert(vals@.subrange(0, k as int + 1).drop_last() =~= vals@.subrange(0, k as int));
            assert(decreases_to!(*parent => vals@[k as int]));
        }
        scan_value_refs(&vals[k], owner, field, target, out);
        k = k + 1;
    }
    assert(vals@.subrange(0, vals@.len() as int) =~= vals@);
}

/// The locator of a nested block, as [`inner_path`] says.
fn inner_path_text(owner: &str, inner: &BlockDecl) -> (r: String)
    ensures
        r@ == inner_path(owner@, *inner),
{
    let mut p = cat3(owner, "/", inner.kind.name.as_str());
    match &inner.name {
        Some(BlockName::Ident(i)) => {
            p.append("/");
            p.append(i.name.as_str());
        },
        Some(BlockName::Int { value, .. }) => {
            p.append("/");
            let t = i64_text(*value);
            p.append(t.as_str());
        },
        None => {},
    }
    p
}

fn scan_block_refs(block: &BlockDecl, owner: &str, target: &str, out: &mut Vec<RefSite>)
    ensures
        refs_view(final(out)@) == refs_view(old(out)@) + block_refs(*block, owner@, target@),
    decreases block,
{
    let items = &block.items;
    let mut k: usize = 0;
    while k < items.len()
        invariant
            k <= items@.len(),
            items@ == block.items@,
            refs_view(out@) == refs_view(old(out)@) + items_refs(items@.subrange(0, k as int), owner@, target@),
        decreases items@.len() - k,
    {
        proof {
            assert(items@.subrange(0, k as int + 1).drop_last() =~= items@.subrange(0, k as int));
        }
        match &items[k] {
            BlockItem::Field(f) => {
                scan_value_refs(&f.value, owner, f.key.name.as_str(), target, out);
            },
            BlockItem::Block(inner) => {
                proof {
                    assert(decreases_to!(*block => block.items));
                    assert(decreases_to!(block.items => block.items@));
                    assert(decreases_to!(block.items@ => block.items@[k as int]));
                    assert(decreases_to!(block.items@[k as int] => *inner));
                }
                let path = inner_path_text(owner, inner);
                scan_block_refs(inner, path.as_str(), target, out);
            },
        }
        k = k + 1;
    }
    assert(items@.subrange(0, items@.len() as int) =~= items@);
}

/// Every site in the slice that names `id`, in source order, each with the
/// locator of the block it sits in and the field that holds it.
pub fn refs_to(file: &File, id: &str) -> (r: RefsReport)
    ensures
        r.id@ == id@,
        refs_view(r.references@) == match file.slice {
            None => seq![],
            Some(s) => top_refs(s.items@, id@),
        },
{
    let mut report = RefsReport { id: owned(id), references: Vec::new() };
    let slice = match &file.slice {
        Some(s) => s,
        None => {
            assert(refs_view(report.references@) =~= seq![]);
            return report;
        },
    };
    let items = &slice.items;
    let mut i: usize = 0;
    assert(refs_view(report.references@) =~= seq![]);
    while i < items.len()
        invariant
            i <= items@.len(),
            items@ == slice.items@,
            report.id@ == id@,
            refs_view(report.references@) == top_refs(items@.subrange(0, i as int), id@),
        decreases items@.len() - i,
    {
        proof {
            assert(items@.subrange(0, i as int + 1).drop_last() =~= items@.subrange(0, i as int));
        }
        match &items[i] {
            BlockItem::Block(b) => {
                let owner_id: &str = match block_name_str(b) {
                    Some(n) => n,
                    None => "<anon>",
                };
                let owner = cat3(b.kind.name.as_str(), "/", owner_id);
                scan_block_refs(b, owner.as_str(), id, &mut report.references);
            },
            _ => {},
        }
        i = i + 1;
    }
    assert(items@.subrange(0, items@.len() as int) =~= items@);
    report
}

// ---------------------------------------------------------------------------
// gaps
// ---------------------------------------------------------------------------

pub struct GapsReport {
    pub unkilled_forbidden_states: Vec<UnkilledFS>,
    pub kill_tests_unresolved: Vec<UnresolvedKT>,
    pub missing_post_failure: Vec<MissingPF>,
    pub unused_cells: Vec<UnusedCell>,
}

pub struct UnkilledFS {
    pub id: String,
    pub kill_test_ref: Option<String>,
    pub reason: &'static str,
    pub span: Span,
}

pub struct UnresolvedKT {
    pub id: String,
    pub status: String,
    pub span: Span,
}

pub struct MissingPF {
    pub event: String,
    pub step: String,
    pub span: Span,
}

pub struct UnusedCell {
    pub id: String,
    pub span: Span,
}

pub open spec fn unkilled_view(u: UnkilledFS) -> (Seq<char>, Option<Seq<char>>, Seq<char>, Span) {
    (u.id@, opt_str(u.kill_test_ref), u.reason@, u.span)
}

pub open spec fn missing_view(m: MissingPF) -> (Seq<char>, Seq<char>, Span) {
    (m.event@, m.step@, m.span)
}

pub open spec fn block_at(items: Seq<BlockItem>, k: int) -> BlockDecl {
    items[k]->Block_0
}

/// A kill-test's `status:` identifier, `declared` when absent.
pub open spec fn kt_status(b: BlockDecl) -> Seq<char> {
    match spec_field_ident(b, "status"@) {
        Some(i) => i.name@,
        None => "declared"@,
    }
}

/// Why a forbidden state whose kill-test has status `st` is not yet killed.
pub open spec fn status_reason(st: Seq<char>) -> Seq<char> {
    if st == "executed_failing"@ {
        "kill_test status: executed_failing"@
    } else if st == "resolved"@ {
        "kill_test resolved but not executed"@
    } else {
        "kill_test status: declared (not yet resolved or executed)"@
    }
}

/// What a top-level item contributes to the unkilled forbidden states.
pub open spec fn unkilled_of(all: Seq<BlockItem>, it: BlockItem) -> Seq<
    (Seq<char>, Option<Seq<char>>, Seq<char>, Span),
> {
    if is_named(it, "forbidden_state"@) {
        let b = it->Block_0;
        let fs = item_name(it);
        match spec_field_value(b, "kill_test"@) {
            None => seq![(fs, None, "no kill_test field declared"@, b.span)],
            Some(FieldValue::Ident(i)) => if i.name@ == "TODO"@ {
                seq![(fs, Some("TODO"@), "kill_test obligation marked TODO"@, i.span)]
            } else {
                match last_decl(all, "kill_test"@, i.name@) {
                    Some(k) => if kt_status(block_at(all, k)) == "executed_passing"@ {
                        seq![]
                    } else {
                        seq![(fs, Some(i.name@), status_reason(kt_status(block_at(all, k))), i.span)]
                    },
                    None => seq![(fs, Some(i.name@), "kill_test reference does not resolve"@, i.span)],
                }
            },
            _ => seq![],
        }
    } else {
        seq![]
    }
}

pub open spec fn unkilled_upto(all: Seq<BlockItem>, n: int) -> Seq<(Seq<char>, Option<Seq<char>>, Seq<char>, Span)>
    decreases n,
{
    if n <= 0 {
        seq![]
    } else {
        unkilled_upto(all, n - 1) + unkilled_of(all, all[n - 1])
    }
}

/// The kill-tests not yet `executed_passing`, one per declared name (the
/// last declaration of a name counts), sorted by name.
pub open spec fn kt_unresolved_ok(items: Seq<BlockItem>, r: Seq<UnresolvedKT>) -> bool {
    &&& forall|i: int, j: int| 0 <= i < j < r.len() ==> name_lt(#[trigger] r[i].id@, #[trigger] r[j].id@)
    &&& forall|j: int|
        0 <= j < r.len() ==> (last_decl(items, "kill_test"@, (#[trigger] r[j]).id@) matches Some(k) && kt_status(
            block_at(items, k),
        ) == r[j].status@ && r[j].status@ != "executed_passing"@ && r[j].span == block_at(items, k).span)
    &&& forall|n: Seq<char>|
        (#[trigger] last_decl(items, "kill_test"@, n) matches Some(k) && kt_status(block_at(items, k))
            != "executed_passing"@) ==> exists|j: int| 0 <= j < r.len() && (#[trigger] r[j]).id@ == n
}

/// The post_failure rows missing for the steps of one event: the rows the
/// symmetric-failure rule asks for that no post_failure block answers.
pub open spec fn missing_steps(all: Seq<BlockItem>, ev: BlockDecl, n: int) -> Seq<(Seq<char>, Seq<char>, Span)>
    decreases n,
{
    if n <= 0 {
        seq![]
    } else {
        let items = ev.items@;
        let idx = step_indices(items);
        let e = spec_block_name_ident(ev)->0.name@;
        let st = spec_block_name_ident(item_block(items, idx[n - 1]))->0;
        missing_steps(all, ev, n - 1) + if needs_row(items, idx, n - 1) && pf_find(all, e, st.name@) is None {
            seq![(e, st.name@, st.span)]
        } else {
            seq![]
        }
    }
}

pub open spec fn missing_of_event(all: Seq<BlockItem>, ev: BlockDecl) -> Seq<(Seq<char>, Seq<char>, Span)> {
    if spec_block_name_ident(ev) is None || !event_in_scope(ev) {
        seq![]
    } else {
        missing_steps(all, ev, step_indices(ev.items@).len() as int)
    }
}

pub open spec fn missing_upto(all: Seq<BlockItem>, n: int) -> Seq<(Seq<char>, Seq<char>, Span)>
    decreases n,
{
    if n <= 0 {
        seq![]
    } else {
        missing_upto(all, n - 1) + match all[n - 1] {
            BlockItem::Block(b) => if b.kind.name@ == "event"@ {
                missing_of_event(all, b)
            } else {
                seq![]
            },
            _ => seq![],
        }
    }
}

/// `n` is named by a field value: as an identifier (also inside lists,
/// type-application parameters and call arguments) or as a map key, also
/// inside map values.
pub open spec fn value_mentions(v: FieldValue, n: Seq<char>) -> bool
    decreases v, 1int,
{
    match v {
        FieldValue::Ident(i) => i.name@ == n,
        FieldValue::List { items, .. } => values_mention(items@, n),
        FieldValue::Mapping { entries, .. } => entries_mention(entries@, n),
        FieldValue::TypeApp { params, .. } => values_mention(params@, n),
        FieldValue::Call { args, .. } => values_mention(args@, n),
        _ => false,
    }
}

pub open spec fn values_mention(s: Seq<FieldValue>, n: Seq<char>) -> bool
    decreases s, 0int,
{
    s.len() > 0 && (values_mention(s.drop_last(), n) || value_mentions(s.last(), n))
}

pub open spec fn entries_mention(s: Seq<MapEntry>, n: Seq<char>) -> bool
    decreases s, 0int,
{
    s.len() > 0 && (entries_mention(s.drop_last(), n) || s.last().key.name@ == n || value_mentions(
        s.last().value,
        n,
    ))
}

/// Anonymous blocks whose field names are cell ids.
pub open spec fn is_cells_kind(k: Seq<char>) -> bool {
    k == "cells"@ || k == "cells_after"@ || k == "cells_after_pre_rollback"@ || k == "cells_after_rollback"@
}

pub open spec fn field_keys_mention(s: Seq<BlockItem>, n: Seq<char>) -> bool
    decreases s.len(),
{
    s.len() > 0 && (field_keys_mention(s.drop_last(), n) || (s.last() is Field && s.last()->Field_0.key.name@
        == n))
}

/// `n` is named somewhere inside the block: by a field value at any depth,
/// or as a field name of a nested `cells`-like block.
pub open spec fn block_mentions(b: BlockDecl, n: Seq<char>) -> bool
    decreases b, 1int,
{
    items_mention(b.items@, n)
}

pub open spec fn items_mention(s: Seq<BlockItem>, n: Seq<char>) -> bool
    decreases s, 0int,
{
    s.len() > 0 && (items_mention(s.drop_last(), n) || match s.last() {
        BlockItem::Field(f) => value_mentions(f.value, n),
        BlockItem::Block(inner) => (is_cells_kind(inner.kind.name@) && field_keys_mention(inner.items@, n))
            || block_mentions(inner, n),
    })
}

/// Some top-level block mentions `n`.
pub open spec fn referenced(items: Seq<BlockItem>, n: Seq<char>) -> bool
    decreases items.len(),
{
    items.len() > 0 && (referenced(items.drop_last(), n) || (items.last() is Block && block_mentions(
        items.last()->Block_0,
        n,
    )))
}

/// The cells never mentioned, one per declared name (the last declaration
/// of a name gives the span), sorted by name.
pub open spec fn unused_ok(items: Seq<BlockItem>, r: Seq<UnusedCell>) -> bool {
    &&& forall|i: int, j: int| 0 <= i < j < r.len() ==> name_lt(#[trigger] r[i].id@, #[trigger] r[j].id@)
    &&& forall|j: int|
        0 <= j < r.len() ==> (last_decl(items, "cell"@, (#[trigger] r[j]).id@) matches Some(k) && !referenced(
            items,
            r[j].id@,
        ) && r[j].span == block_at(items, k).span)
    &&& forall|n: Seq<char>|
        (#[trigger] last_decl(items, "cell"@, n) is Some && !referenced(items, n)) ==> exists|j: int|
            0 <= j < r.len() && (#[trigger] r[j]).id@ == n
}

fn value_mentions_exec(v: &FieldValue, n: &str) -> (r: bool)
    ensures
        r == value_mentions(*v, n@),
    decreases v,
{
    match v {
        FieldValue::Ident(i) => str_eq(i.name.as_str(), n),
        FieldValue::List { items, .. } => values_mention_exec(v, items, n),
        FieldValue::TypeApp { params, .. } => values_mention_exec(v, params, n),
        FieldValue::Call { args, .. } => values_mention_exec(v, args, n),
        FieldValue::Mapping { entries, .. } => {
            let mut found = false;
            let mut k: usize = 0;
            while k < entries.len()
                invariant
                    k <= entries@.len(),
                    *v == (FieldValue::Mapping { span: v->Mapping_span, entries: *entries }),
                    found == entries_mention(entries@.subrange(0, k as int), n@),
                decreases entries@.len() - k,
            {
                proof {
                    assert(entries@.subrange(0, k as int + 1).drop_last() =~= entries@.subrange(0, k as int));
                    assert(v->Mapping_entries == *entries);
                    assert(decreases_to!(*v => v->Mapping_entries));
                    assert(decreases_to!(*v => *entries));
                    assert(decreases_to!(*entries => entries@));
                    assert(decreases_to!(entries@ => entries@[k as int]));
                    assert(decreases_to!(entries@[k as int] => entries@[k as int].value));
                }
                let e = &entries[k];
                let here = str_eq(e.key.name.as_str(), n);
                let inner = value_mentions_exec(&e.value, n);
                found = found || here || inner;
                k = k + 1;
            }
            assert(entries@.subrange(0, entries@.len() as int) =~= entries@);
            found
        },
        _ => false,
    }
}

fn values_mention_exec(parent: &FieldValue, vals: &Vec<FieldValue>, n: &str) -> (r: bool)
    requires
        value_mentions(*parent, n@) == values_mention(vals@, n@),
        forall|k: int| 0 <= k < vals@.len() ==> decreases_to!(*parent => #[trigger] vals@[k]),
    ensures
        r == value_mentions(*parent, n@),
    decreases parent, 0int,
{
    let mut found = false;
    let mut k: usize = 0;
    while k < vals.len()
        invariant
            k <= vals@.len(),
            forall|q: int| 0 <= q < vals@.len() ==> decreases_to!(*parent => #[trigger] vals@[q]),
            found == values_mention(vals@.subrange(0, k as int), n@),
        decreases vals@.len() - k,
    {
        proof {
            assert(vals@.subrange(0, k as int + 1).drop_last() =~= vals@.subrange(0, k as int));
            assert(decreases_to!(*parent => vals@[k as int]));
        }
        let inner = value_mentions_exec(&vals[k], n);
        found = found || inner;
        k = k + 1;
    }
    assert(vals@.subrange(0, vals@.len() as int) =~= vals@);
    found
}

fn field_keys_mention_exec(b: &BlockDecl, n: &str) -> (r: bool)
    ensures
        r == field_keys_mention(b.items@, n@),
{
    let mut found = false;
    let mut k: usize = 0;
    while k < b.items.len()
        invariant
            k <= b.items@.len(),
            found == field_keys_mention(b.items@.subrange(0, k as int), n@),
        decreases b.items@.len() - k,
    {
        proof {
            assert(b.items@.subrange(0, k as int + 1).drop_last() =~= b.items@.subrange(0, k as int));
        }
        match &b.items[k] {
            BlockItem::Field(f) => {
                let here = str_eq(f.key.name.as_str(), n);
                found = found || here;
            },
            _ => {},
        }
        k = k + 1;
    }
    assert(b.items@.subrange(0, b.items@.len() as int) =~= b.items@);
    found
}

fn is_cells_kind_exec(k: &String) -> (r: bool)
    ensures
        r == is_cells_kind(k@),
{
    is_lit(k, "cells") || is_lit(k, "cells_after") || is_lit(k, "cells_after_pre_rollback") || is_lit(
        k,
        "cells_after_rollback",
    )
}

fn block_mentions_exec(b: &BlockDecl, n: &str) -> (r: bool)
    ensures
        r == block_mentions(*b, n@),
    decreases b,
{
    let items = &b.items;
    let mut found = false;
    let mut k: usize = 0;
    while k < items.len()
        invariant
            k <= items@.len(),
            items@ == b.items@,
            found == items_mention(items@.subrange(0, k as int), n@),
        decreases items@.len() - k,
    {
        proof {
            assert(items@.subrange(0, k as int + 1).drop_last() =~= items@.subrange(0, k as int));
        }
        match &items[k] {
            BlockItem::Field(f) => {
                let inner = value_mentions_exec(&f.value, n);
                found = found || inner;
            },
            BlockItem::Block(inner) => {
                proof {
                    assert(decreases_to!(*b => b.items));
                    assert(decreases_to!(b.items => b.items@));
                    assert(decreases_to!(b.items@ => b.items@[k as int]));
                    assert(decreases_to!(b.items@[k as int] => *inner));
                }
                let keyed = is_cells_kind_exec(&inner.kind.name) && field_keys_mention_exec(inner, n);
                let deep = block_mentions_exec(inner, n);
                found = found || keyed || deep;
            },
        }
        k = k + 1;
    }
    assert(items@.subrange(0, items@.len() as int) =~= items@);
    found
}

fn referenced_exec(items: &Vec<BlockItem>, n: &str) -> (r: bool)
    ensures
        r == referenced(items@, n@),
{
    let mut found = false;
    let mut k: usize = 0;
    while k < items.len()
        invariant
            k <= items@.len(),
            found == referenced(items@.subrange(0, k as int), n@),
        decreases items@.len() - k,
    {
        proof {
            assert(items@.subrange(0, k as int + 1).drop_last() =~= items@.subrange(0, k as int));
        }
        match &items[k] {
            BlockItem::Block(b) => {
                let here = block_mentions_exec(b, n);
                found = found || here;
            },
            _ => {},
        }
        k = k + 1;
    }
    assert(items@.subrange(0, items@.len() as int) =~= items@);
    found
}

fn status_of(b: &BlockDecl) -> (r: &str)
    ensures
        r@ == kt_status(*b),
{
    match field_ident(b, "status") {
        Some(i) => i.name.as_str(),
        None => "declared",
    }
}

fn reason_for(st: &str) -> (r: &'static str)
    ensures
        r@ == status_reason(st@),
{
    if str_eq(st, "executed_failing") {
        "kill_test status: executed_failing"
    } else if str_eq(st, "resolved") {
        "kill_test resolved but not executed"
    } else {
        "kill_test status: declared (not yet resolved or executed)"
    }
}

pub open spec fn unkilled_views(v: Seq<UnkilledFS>) -> Seq<(Seq<char>, Option<Seq<char>>, Seq<char>, Span)> {
    v.map_values(|u: UnkilledFS| unkilled_view(u))
}

pub open spec fn missing_views(v: Seq<MissingPF>) -> Seq<(Seq<char>, Seq<char>, Span)> {
    v.map_values(|m: MissingPF| missing_view(m))
}

fn unkilled_item(items: &Vec<BlockItem>, kts: &Vec<(&str, usize)>, it: &BlockItem, out: &mut Vec<UnkilledFS>)
    requires
        indexes(items@, "kill_test"@, kts@),
    ensures
        unkilled_views(final(out)@) == unkilled_views(old(out)@) + unkilled_of(items@, *it),
{
    let b = match it {
        BlockItem::Block(b) => b,
        _ => {
            assert(unkilled_views(out@) =~= unkilled_views(old(out)@) + unkilled_of(items@, *it));
            return;
        },
    };
    let fs_id = match block_name_str(b) {
        Some(n) => n,
        None => {
            assert(unkilled_views(out@) =~= unkilled_views(old(out)@) + unkilled_of(items@, *it));
            return;
        },
    };
    if !kind_is(b, "forbidden_state") {
        assert(unkilled_views(out@) =~= unkilled_views(old(out)@) + unkilled_of(items@, *it));
        return;
    }
    match field_value(b, "kill_test") {
        None => {
            out.push(UnkilledFS { id: owned(fs_id), kill_test_ref: None, reason: "no kill_test field declared", span: b.span });
        },
        Some(FieldValue::Ident(i)) => {
            let name = i.name.as_str();
            if str_eq(name, "TODO") {
                out.push(
                    UnkilledFS {
                        id: owned(fs_id),
                        kill_test_ref: Some(owned("TODO")),
                        reason: "kill_test obligation marked TODO",
                        span: i.span,
                    },
                );
            } else {
                let found = index_lookup(kts, name);
                proof {
                    lemma_lookup_is_last_decl(items@, "kill_test"@, kts@, name@, found);
                }
                match found {
                    Some(k) => {
                        proof {
                            lemma_last_decl(items@, "kill_test"@, name@);
                        }
                        match &items[k] {
                            BlockItem::Block(kt) => {
                                let st = status_of(kt);
                                if !str_eq(st, "executed_passing") {
                                    out.push(
                                        UnkilledFS {
                                            id: owned(fs_id),
                                            kill_test_ref: Some(owned(name)),
                                            reason: reason_for(st),
                                            span: i.span,
                                        },
                                    );
                                }
                            },
                            _ => {},
                        }
                    },
                    None => {
                        out.push(
                            UnkilledFS {
                                id: owned(fs_id),
                                kill_test_ref: Some(owned(name)),
                                reason: "kill_test reference does not resolve",
                                span: i.span,
                            },
                        );
                    },
                }
            }
        },
        _ => {},
    }
    assert(unkilled_views(out@) =~= unkilled_views(old(out)@) + unkilled_of(items@, *it));
}

fn missing_for_event(all: &Vec<BlockItem>, event: &BlockDecl, out: &mut Vec<MissingPF>)
    ensures
        missing_views(final(out)@) == missing_views(old(out)@) + missing_of_event(all@, *event),
{
    let event_name = match block_name_ident(event) {
        Some(n) => n.name.as_str(),
        None => {
            assert(missing_views(out@) =~= missing_views(old(out)@) + missing_of_event(all@, *event));
            return;
        },
    };
    let steps = collect_steps(event);
    let ghost idx = step_indices(event.items@);
    let items = &event.items;
    let mut fallible: usize = 0;
    let mut k: usize = 0;
    while k < steps.len()
        invariant
            k <= steps@.len(),
            items@ == event.items@,
            steps@.len() == idx.len(),
            forall|q: int| 0 <= q < steps@.len() ==> steps@[q] as int == idx[q],
            forall|q: int| 0 <= q < steps@.len() ==> (#[trigger] steps@[q]) < items@.len(),
            fallible as nat == fallible_count(items@, idx, k as int),
            fallible <= k,
            idx == step_indices(items@),
        decreases steps@.len() - k,
    {
        proof {
            lemma_step_indices_are_blocks(items@, k as int);
        }
        match &items[steps[k]] {
            BlockItem::Block(sb) => {
                if field_is_true(sb, "fallible") {
                    fallible = fallible + 1;
                }
            },
            BlockItem::Field(_) => {},
        }
        k = k + 1;
    }
    if fallible < 2 {
        assert(missing_views(out@) =~= missing_views(old(out)@) + missing_of_event(all@, *event));
        return;
    }
    let mut seen_observable = false;
    let mut i: usize = 0;
    while i < steps.len()
        invariant
            i <= steps@.len(),
            items@ == event.items@,
            steps@.len() == idx.len(),
            idx == step_indices(items@),
            forall|q: int| 0 <= q < steps@.len() ==> steps@[q] as int == idx[q],
            forall|q: int| 0 <= q < steps@.len() ==> (#[trigger] steps@[q]) < items@.len(),
            spec_block_name_ident(*event) matches Some(n) && n.name@ == event_name@,
            seen_observable == (exists|j: int| 0 <= j < i && observable(item_block(items@, #[trigger] idx[j]))),
            event_in_scope(*event),
            missing_views(out@) == missing_views(old(out)@) + missing_steps(all@, *event, i as int),
        decreases steps@.len() - i,
    {
        proof {
            lemma_step_indices_are_blocks(items@, i as int);
        }
        match &items[steps[i]] {
            BlockItem::Block(sb) => {
                assert(item_block(items@, idx[i as int]) == *sb);
                match block_name_ident(sb) {
                    Some(step_name) => {
                        let ghost row: Seq<(Seq<char>, Seq<char>, Span)> = if needs_row(items@, idx, i as int)
                            && pf_find(all@, event_name@, step_name.name@) is None {
                            seq![(event_name@, step_name.name@, step_name.span)]
                        } else {
                            seq![]
                        };
                        assert(missing_steps(all@, *event, i as int + 1) == missing_steps(all@, *event, i as int) + row);
                        let ghost o = out@;
                        if i > 0 && field_is_true(sb, "fallible") && seen_observable {
                            match find_post_failure(all, event_name, step_name.name.as_str()) {
                                None => {
                                    out.push(
                                        MissingPF {
                                            event: owned(event_name),
                                            step: owned(step_name.name.as_str()),
                                            span: step_name.span,
                                        },
                                    );
                                    assert(missing_views(out@) =~= missing_views(o) + row);
                                },
                                Some(_) => {
                                    assert(row =~= seq![]);
                                    assert(missing_views(out@) =~= missing_views(o) + row);
                                },
                            }
                        } else {
                            assert(!needs_row(items@, idx, i as int));
                            assert(row =~= seq![]);
                            assert(missing_views(out@) =~= missing_views(o) + row);
                        }
                        if is_observable(sb) {
                            seen_observable = true;
                        }
                    },
                    None => {},
                }
            },
            BlockItem::Field(_) => {},
        }
        i = i + 1;
    }
    assert(missing_views(out@) =~= missing_views(old(out)@) + missing_of_event(all@, *event));
}

/// Gap analysis of a slice: forbidden states not yet killed (in order),
/// kill-tests not yet `executed_passing` and unused cells (each sorted by
/// name, one per declared name), and the post_failure rows the
/// symmetric-failure rule asks for that are missing (in order).
pub fn gaps(file: &File) -> (r: GapsReport)
    ensures
        match file.slice {
            None => {
                &&& r.unkilled_forbidden_states@.len() == 0
                &&& r.kill_tests_unresolved@.len() == 0
                &&& r.missing_post_failure@.len() == 0
                &&& r.unused_cells@.len() == 0
            },
            Some(s) => {
                &&& unkilled_views(r.unkilled_forbidden_states@) == unkilled_upto(s.items@, s.items@.len() as int)
                &&& kt_unresolved_ok(s.items@, r.kill_tests_unresolved@)
                &&& missing_views(r.missing_post_failure@) == missing_upto(s.items@, s.items@.len() as int)
                &&& unused_ok(s.items@, r.unused_cells@)
            },
        },
{
    let mut report = GapsReport {
        unkilled_forbidden_states: Vec::new(),
        kill_tests_unresolved: Vec::new(),
        missing_post_failure: Vec::new(),
        unused_cells: Vec::new(),
    };
    let slice = match &file.slice {
        Some(s) => s,
        None => return report,
    };
    let items = &slice.items;
    let kts = build_index(items, "kill_test");
    let cells = build_index(items, "cell");

    // Unkilled forbidden states, and missing post_failure rows.
    let mut i: usize = 0;
    assert(unkilled_views(report.unkilled_forbidden_states@) =~= seq![]);
    assert(missing_views(report.missing_post_failure@) =~= seq![]);
    while i < items.len()
        invariant
            i <= items@.len(),
            items@ == slice.items@,
            indexes(items@, "kill_test"@, kts@),
            unkilled_views(report.unkilled_forbidden_states@) == unkilled_upto(items@, i as int),
            missing_views(report.missing_post_failure@) == missing_upto(items@, i as int),
            report.kill_tests_unresolved@.len() == 0,
            report.unused_cells@.len() == 0,
        decreases items@.len() - i,
    {
        unkilled_item(items, &kts, &items[i], &mut report.unkilled_forbidden_states);
        match &items[i] {
            BlockItem::Block(b) => {
                if kind_is(b, "event") {
                    missing_for_event(items, b, &mut report.missing_post_failure);
                }
            },
            _ => {},
        }
        i = i + 1;
    }

    // Kill-tests whose status is not executed_passing.
    let mut q: usize = 0;
    let ghost mut src: Seq<int> = seq![];
    while q < kts.len()
        invariant
            q <= kts@.len(),
            items@ == slice.items@,
            indexes(items@, "kill_test"@, kts@),
            indexes(items@, "cell"@, cells@),
            unkilled_views(report.unkilled_forbidden_states@) == unkilled_upto(items@, items@.len() as int),
            missing_views(report.missing_post_failure@) == missing_upto(items@, items@.len() as int),
            report.unused_cells@.len() == 0,
            src.len() == report.kill_tests_unresolved@.len(),
            forall|j: int| 0 <= j < src.len() ==> 0 <= #[trigger] src[j] < q,
            forall|a: int, b: int| 0 <= a < b < src.len() ==> #[trigger] src[a] < #[trigger] src[b],
            forall|j: int|
                0 <= j < src.len() ==> (#[trigger] report.kill_tests_unresolved@[j]).id@ == kts@[src[j]].0@,
            forall|j: int|
                0 <= j < report.kill_tests_unresolved@.len() ==> (last_decl(
                    items@,
                    "kill_test"@,
                    (#[trigger] report.kill_tests_unresolved@[j]).id@,
                ) matches Some(k) && kt_status(block_at(items@, k)) == report.kill_tests_unresolved@[j].status@
                    && report.kill_tests_unresolved@[j].status@ != "executed_passing"@
                    && report.kill_tests_unresolved@[j].span == block_at(items@, k).span),
            forall|p: int|
                0 <= p < q && (last_decl(items@, "kill_test"@, (#[trigger] kts@[p]).0@) matches Some(k)
                    && kt_status(block_at(items@, k)) != "executed_passing"@) ==> exists|j: int|
                    0 <= j < report.kill_tests_unresolved@.len()
                        && (#[trigger] report.kill_tests_unresolved@[j]).id@ == kts@[p].0@,
        decreases kts@.len() - q,
    {
        let name = kts[q].0;
        let k = kts[q].1;
        proof {
            lemma_last_decl(items@, "kill_test"@, name@);
        }
        assert(last_decl(items@, "kill_test"@, kts@[q as int].0@) == Some(k as int));
        let ghost r0 = report.kill_tests_unresolved@;
        match &items[k] {
            BlockItem::Block(b) => {
                let st = status_of(b);
                if !str_eq(st, "executed_passing") {
                    report.kill_tests_unresolved.push(UnresolvedKT { id: owned(name), status: owned(st), span: b.span });
                    proof {
                        src = src.push(q as int);
                    }
                }
            },
            _ => {},
        }
        proof {
            let r1 = report.kill_tests_unresolved@;
            assert forall|p: int|
                0 <= p < q + 1 && (last_decl(items@, "kill_test"@, (#[trigger] kts@[p]).0@) matches Some(k)
                    && kt_status(block_at(items@, k)) != "executed_passing"@) implies exists|j: int|
                    0 <= j < r1.len() && (#[trigger] r1[j]).id@ == kts@[p].0@ by {
                if p < q {
                    let j = choose|j: int| 0 <= j < r0.len() && (#[trigger] r0[j]).id@ == kts@[p].0@;
                    assert(r1[j] == r0[j]);
                } else {
                    assert(r1[r1.len() - 1].id@ == kts@[p].0@);
                }
            }
        }
        q = q + 1;
    }
    proof {
        let r = report.kill_tests_unresolved@;
        assert forall|a: int, b: int| 0 <= a < b < r.len() implies name_lt(#[trigger] r[a].id@, #[trigger] r[b].id@) by {
            assert(src[a] < src[b]);
            assert(r[a].id@ == kts@[src[a]].0@);
            assert(r[b].id@ == kts@[src[b]].0@);
        }
        assert forall|n: Seq<char>|
            (#[trigger] last_decl(items@, "kill_test"@, n) matches Some(k) && kt_status(block_at(items@, k))
                != "executed_passing"@) implies exists|j: int| 0 <= j < r.len() && (#[trigger] r[j]).id@ == n by {
            let p = choose|p: int| 0 <= p < kts@.len() && (#[trigger] kts@[p]).0@ == n;
            assert(last_decl(items@, "kill_test"@, kts@[p].0@) is Some);
        }
    }

    // Cells never mentioned.
    let mut q: usize = 0;
    let ghost mut src: Seq<int> = seq![];
    while q < cells.len()
        invariant
            q <= cells@.len(),
            items@ == slice.items@,
            indexes(items@, "cell"@, cells@),
            unkilled_views(report.unkilled_forbidden_states@) == unkilled_upto(items@, items@.len() as int),
            missing_views(report.missing_post_failure@) == missing_upto(items@, items@.len() as int),
            kt_unresolved_ok(items@, report.kill_tests_unresolved@),
            src.len() == report.unused_cells@.len(),
            forall|j: int| 0 <= j < src.len() ==> 0 <= #[trigger] src[j] < q,
            forall|a: int, b: int| 0 <= a < b < src.len() ==> #[trigger] src[a] < #[trigger] src[b],
            forall|j: int| 0 <= j < src.len() ==> (#[trigger] report.unused_cells@[j]).id@ == cells@[src[j]].0@,
            forall|j: int|
                0 <= j < report.unused_cells@.len() ==> (last_decl(
                    items@,
                    "cell"@,
                    (#[trigger] report.unused_cells@[j]).id@,
                ) matches Some(k) && !referenced(items@, report.unused_cells@[j].id@)
                    && report.unused_cells@[j].span == block_at(items@, k).span),
            forall|p: int|
                0 <= p < q && last_decl(items@, "cell"@, (#[trigger] cells@[p]).0@) is Some && !referenced(
                    items@,
                    cells@[p].0@,
                ) ==> exists|j: int| 0 <= j < report.unused_cells@.len() && (#[trigger] report.unused_cells@[j]).id@ == cells@[p].0@,
        decreases cells@.len() - q,
    {
        let name = cells[q].0;
        let k = cells[q].1;
        proof {
            lemma_last_decl(items@, "cell"@, name@);
        }
        assert(last_decl(items@, "cell"@, cells@[q as int].0@) == Some(k as int));
        let ghost r0 = report.unused_cells@;
        match &items[k] {
            BlockItem::Block(b) => {
                if !referenced_exec(items, name) {
                    report.unused_cells.push(UnusedCell { id: owned(name), span: b.span });
                    proof {
                        src = src.push(q as int);
                    }
                }
            },
            _ => {},
        }
        proof {
            let r1 = report.unused_cells@;
            assert forall|p: int|
                0 <= p < q + 1 && last_decl(items@, "cell"@, (#[trigger] cells@[p]).0@) is Some && !referenced(
                    items@,
                    cells@[p].0@,
                ) implies exists|j: int| 0 <= j < r1.len() && (#[trigger] r1[j]).id@ == cells@[p].0@ by {
                if p < q {
                    let j = choose|j: int| 0 <= j < r0.len() && (#[trigger] r0[j]).id@ == cells@[p].0@;
                    assert(r1[j] == r0[j]);
                } else {
                    assert(r1[r1.len() - 1].id@ == cells@[p].0@);
                }
            }
        }
        q = q + 1;
    }
    proof {
        let r = report.unused_cells@;
        assert forall|a: int, b: int| 0 <= a < b < r.len() implies name_lt(#[trigger] r[a].id@, #[trigger] r[b].id@) by {
            assert(src[a] < src[b]);
            assert(r[a].id@ == cells@[src[a]].0@);
            assert(r[b].id@ == cells@[src[b]].0@);
        }
        assert forall|n: Seq<char>|
            (#[trigger] last_decl(items@, "cell"@, n) is Some && !referenced(items@, n)) implies exists|j: int|
            0 <= j < r.len() && (#[trigger] r[j]).id@ == n by {
            let p = choose|p: int| 0 <= p < cells@.len() && (#[trigger] cells@[p]).0@ == n;
        }
    }
    report
}

// ---------------------------------------------------------------------------
// Gaps and the symmetric-failure pass agree
// ---------------------------------------------------------------------------

/// The symmetric-failure diagnostic for the missing row `(event, step, span)`.
pub open spec fn row_diag(m: (Seq<char>, Seq<char>, Span)) -> DiagView {
    hinted(
        codes::E_SYMFAIL_MISSING_POST_FAILURE,
        Severity::Error,
        "missing `post_failure` row for `event: "@ + m.0 + ", step: "@ + m.1
            + "` — what is the state of all cells if `"@ + m.1 + "` fails AFTER prior steps succeeded?"@,
        m.2,
        "add `post_failure pf_<id> { event: "@ + m.0 + " step: "@ + m.1
            + " outcome: \"...\" cells_after_pre_rollback { ... } cells_after_rollback { ... } }`"@,
    )
}

/// The missing-row (`E0300`) diagnostics among `ds`, in order.
pub open spec fn missing_rows(ds: Seq<DiagView>) -> Seq<DiagView>
    decreases ds.len(),
{
    if ds.len() == 0 {
        seq![]
    } else {
        missing_rows(ds.drop_last()) + if ds.last().0 == codes::E_SYMFAIL_MISSING_POST_FAILURE@ {
            seq![ds.last()]
        } else {
            seq![]
        }
    }
}

proof fn lemma_missing_rows_concat(a: Seq<DiagView>, b: Seq<DiagView>)
    ensures
        missing_rows(a + b) == missing_rows(a) + missing_rows(b),
    decreases b.len(),
{
    if b.len() == 0 {
        assert(a + b =~= a);
    } else {
        assert((a + b).drop_last() =~= a + b.drop_last());
        lemma_missing_rows_concat(a, b.drop_last());
    }
}

proof fn lemma_rows_of_steps(all: Seq<BlockItem>, ev: BlockDecl, n: int)
    requires
        spec_block_name_ident(ev) is Some,
        0 <= n <= step_indices(ev.items@).len(),
    ensures
        missing_rows(steps_diags(all, ev, n)) == missing_steps(all, ev, n).map_values(
            |m: (Seq<char>, Seq<char>, Span)| row_diag(m),
        ),
    decreases n,
{
    reveal_strlit("memspec/E0300");
    reveal_strlit("memspec/E0301");
    assert(codes::E_SYMFAIL_MISSING_POST_FAILURE@[12] != codes::E_SYMFAIL_MISSING_ROLLBACK_PAIR@[12]);
    let f = |m: (Seq<char>, Seq<char>, Span)| row_diag(m);
    if n == 0 {
        assert(missing_rows(steps_diags(all, ev, n)) =~= missing_steps(all, ev, n).map_values(f));
    } else {
        lemma_rows_of_steps(all, ev, n - 1);
        lemma_missing_rows_concat(steps_diags(all, ev, n - 1), step_diags(all, ev, n - 1));
        let sd = step_diags(all, ev, n - 1);
        let items = ev.items@;
        let idx = step_indices(items);
        let e = spec_block_name_ident(ev)->0.name@;
        let st = spec_block_name_ident(item_block(items, idx[n - 1]))->0;
        let row: Seq<(Seq<char>, Seq<char>, Span)> = if needs_row(items, idx, n - 1) && pf_find(all, e, st.name@) is None {
            seq![(e, st.name@, st.span)]
        } else {
            seq![]
        };
        let prev = missing_steps(all, ev, n - 1);
        let cur = missing_steps(all, ev, n);
        assert(cur == prev + row);
        assert(missing_rows(Seq::<DiagView>::empty()) =~= Seq::<DiagView>::empty());
        if !needs_row(items, idx, n - 1) {
            assert(sd =~= Seq::<DiagView>::empty());
            assert(missing_rows(sd) =~= row.map_values(f));
        } else if pf_find(all, e, st.name@) is None {
            assert(sd == seq![missing_row_diag(e, st)]);
            assert(sd.drop_last() =~= Seq::<DiagView>::empty());
            assert(missing_row_diag(e, st) == row_diag((e, st.name@, st.span)));
            assert(sd.last().0 == codes::E_SYMFAIL_MISSING_POST_FAILURE@);
            assert(missing_rows(sd) == seq![sd.last()]);
            assert(row.map_values(f) =~= seq![row_diag((e, st.name@, st.span))]);
            assert(missing_rows(sd) =~= row.map_values(f));
        } else {
            if sd.len() == 1 {
                assert(sd.drop_last() =~= Seq::<DiagView>::empty());
                assert(sd[0].0 == codes::E_SYMFAIL_MISSING_ROLLBACK_PAIR@);
                assert(missing_rows(sd) == missing_rows(sd.drop_last()));
            } else {
                assert(sd =~= Seq::<DiagView>::empty());
            }
            assert(missing_rows(sd) =~= row.map_values(f));
        }
        assert(cur.map_values(f) =~= prev.map_values(f) + row.map_values(f));
    }
}

proof fn lemma_rows_of_items(all: Seq<BlockItem>, n: int)
    requires
        0 <= n <= all.len(),
    ensures
        missing_rows(items_diags(all, n)) == missing_upto(all, n).map_values(
            |m: (Seq<char>, Seq<char>, Span)| row_diag(m),
        ),
    decreases n,
{
    let f = |m: (Seq<char>, Seq<char>, Span)| row_diag(m);
    if n == 0 {
        assert(missing_rows(items_diags(all, n)) =~= missing_upto(all, n).map_values(f));
    } else {
        lemma_rows_of_items(all, n - 1);
        let it = all[n - 1];
        let ed: Seq<DiagView> = if it is Block && it->Block_0.kind.name@ == "event"@ {
            event_diags(all, it->Block_0)
        } else {
            seq![]
        };
        let em: Seq<(Seq<char>, Seq<char>, Span)> = match it {
            BlockItem::Block(b) => if b.kind.name@ == "event"@ {
                missing_of_event(all, b)
            } else {
                seq![]
            },
            _ => seq![],
        };
        lemma_missing_rows_concat(items_diags(all, n - 1), ed);
        if it is Block && it->Block_0.kind.name@ == "event"@ {
            let ev = it->Block_0;
            if spec_block_name_ident(ev) is Some && event_in_scope(ev) {
                lemma_rows_of_steps(all, ev, step_indices(ev.items@).len() as int);
            } else {
                assert(missing_rows(ed) =~= Seq::<DiagView>::empty());
            }
        } else {
            assert(missing_rows(ed) =~= Seq::<DiagView>::empty());
        }
        assert(missing_rows(ed) == em.map_values(f));
        assert(missing_upto(all, n).map_values(f) =~= missing_upto(all, n - 1).map_values(f) + em.map_values(f));
    }
}

/// Gap analysis and the symmetric-failure pass agree: the post_failure rows
/// [`gaps`] reports missing are exactly the rows for which the
/// symmetric-failure pass reports `E0300`, in the same order.
pub proof fn lemma_gaps_missing_rows_match_symmetric_failure(file: File)
    ensures
        missing_rows(symmetric_spec(file)) == match file.slice {
            None => seq![],
            Some(s) => missing_upto(s.items@, s.items@.len() as int).map_values(
                |m: (Seq<char>, Seq<char>, Span)| row_diag(m),
            ),
        },
{
    match file.slice {
        None => {
            assert(missing_rows(symmetric_spec(file)) =~= Seq::<DiagView>::empty());
        },
        Some(s) => {
            lemma_rows_of_items(s.items@, s.items@.len() as int);
        },
    }
}

// ---------------------------------------------------------------------------
// Laws
// ---------------------------------------------------------------------------

proof fn lemma_unkilled_upto_has(all: Seq<BlockItem>, i: int, n: int, x: (Seq<char>, Option<Seq<char>>, Seq<char>, Span))
    requires
        0 <= i < n <= all.len(),
        unkilled_of(all, all[i]).contains(x),
    ensures
        unkilled_upto(all, n).contains(x),
    decreases n,
{
    if i == n - 1 {
        crate::text::lemma_concat_contains(unkilled_upto(all, n - 1), unkilled_of(all, all[n - 1]), x);
    } else {
        lemma_unkilled_upto_has(all, i, n - 1, x);
        crate::text::lemma_concat_contains(unkilled_upto(all, n - 1), unkilled_of(all, all[n - 1]), x);
    }
}

/// A forbidden state counts as killed only by a kill-test whose `status:`
/// is exactly `executed_passing`. When its `kill_test:` names a declared
/// kill-test with any other status (or none), the gaps report lists it,
/// with the reference and at the reference's span; a `resolved` kill-test
/// is reported as resolved but not executed. With `executed_passing` the
/// forbidden state adds nothing to the list.
pub proof fn law_only_passing_kill_test_kills(file: File, i: int, r: GapsReport)
    requires
        file.slice is Some,
        unkilled_views(r.unkilled_forbidden_states@) == unkilled_upto(
            file.slice->0.items@,
            file.slice->0.items@.len() as int,
        ),
        0 <= i < file.slice->0.items@.len(),
        is_named(file.slice->0.items@[i], "forbidden_state"@),
        spec_field_value(file.slice->0.items@[i]->Block_0, "kill_test"@) matches Some(FieldValue::Ident(kt))
            && kt.name@ != "TODO"@ && last_decl(file.slice->0.items@, "kill_test"@, kt.name@) is Some,
    ensures
        ({
            let items = file.slice->0.items@;
            let kt = spec_field_value(items[i]->Block_0, "kill_test"@)->0->Ident_0;
            let k = last_decl(items, "kill_test"@, kt.name@)->0;
            let passing = spec_field_ident(items[k]->Block_0, "status"@) matches Some(st) && st.name@
                == "executed_passing"@;
            &&& passing ==> unkilled_of(items, items[i]).len() == 0
            &&& !passing ==> exists|j: int|
                0 <= j < r.unkilled_forbidden_states@.len() && (#[trigger] r.unkilled_forbidden_states@[j]).id@
                    == item_name(items[i]) && opt_str(r.unkilled_forbidden_states@[j].kill_test_ref) == Some(kt.name@)
                    && r.unkilled_forbidden_states@[j].span == kt.span && (spec_field_ident(
                    items[k]->Block_0,
                    "status"@,
                ) matches Some(st) && st.name@ == "resolved"@ ==> r.unkilled_forbidden_states@[j].reason@
                    == "kill_test resolved but not executed"@)
        }),
{
    let items = file.slice->0.items@;
    let kt = spec_field_value(items[i]->Block_0, "kill_test"@)->0->Ident_0;
    let k = last_decl(items, "kill_test"@, kt.name@)->0;
    let passing = spec_field_ident(items[k]->Block_0, "status"@) matches Some(st) && st.name@ == "executed_passing"@;
    reveal_strlit("declared");
    reveal_strlit("executed_passing");
    reveal_strlit("resolved");
    reveal_strlit("executed_failing");
    assert("declared"@ != "executed_passing"@) by {
        assert("declared"@[0] != "executed_passing"@[0]);
    }
    assert("resolved"@ != "executed_failing"@) by {
        assert("resolved"@[0] != "executed_failing"@[0]);
    }
    assert(block_at(items, k) == items[k]->Block_0);
    if !passing {
        let x = (item_name(items[i]), Some(kt.name@), status_reason(kt_status(block_at(items, k))), kt.span);
        assert(unkilled_of(items, items[i]) == seq![x]);
        assert(unkilled_of(items, items[i])[0] == x);
        lemma_unkilled_upto_has(items, i, items.len() as int, x);
        let v = unkilled_views(r.unkilled_forbidden_states@);
        let j = choose|j: int| 0 <= j < v.len() && v[j] == x;
        assert(unkilled_view(r.unkilled_forbidden_states@[j]) == x);
    }
}

/// A forbidden state without a working kill-test is always reported: with
/// no `kill_test:` field (at the block), with `kill_test: TODO`, or with a
/// reference to no declared kill-test (both at the reference), the gaps
/// report lists it under its name.
pub proof fn law_unbacked_forbidden_state_is_reported(file: File, i: int, r: GapsReport)
    requires
        file.slice is Some,
        unkilled_views(r.unkilled_forbidden_states@) == unkilled_upto(
            file.slice->0.items@,
            file.slice->0.items@.len() as int,
        ),
        0 <= i < file.slice->0.items@.len(),
        is_named(file.slice->0.items@[i], "forbidden_state"@),
        spec_field_value(file.slice->0.items@[i]->Block_0, "kill_test"@) is None || (spec_field_value(
            file.slice->0.items@[i]->Block_0,
            "kill_test"@,
        ) matches Some(FieldValue::Ident(kt)) && (kt.name@ == "TODO"@ || last_decl(
            file.slice->0.items@,
            "kill_test"@,
            kt.name@,
        ) is None)),
    ensures
        exists|j: int|
            0 <= j < r.unkilled_forbidden_states@.len() && (#[trigger] r.unkilled_forbidden_states@[j]).id@ == item_name(
                file.slice->0.items@[i],
            ) && match spec_field_value(file.slice->0.items@[i]->Block_0, "kill_test"@) {
                Some(FieldValue::Ident(kt)) => opt_str(r.unkilled_forbidden_states@[j].kill_test_ref) == Some(kt.name@)
                    && r.unkilled_forbidden_states@[j].span == kt.span,
                _ => r.unkilled_forbidden_states@[j].kill_test_ref is None && r.unkilled_forbidden_states@[j].span
                    == file.slice->0.items@[i]->Block_0.span,
            },
{
    let items = file.slice->0.items@;
    let b = items[i]->Block_0;
    assert(unkilled_of(items, items[i]).len() == 1);
    let x = unkilled_of(items, items[i])[0];
    assert(unkilled_of(items, items[i]).contains(x));
    lemma_unkilled_upto_has(items, i, items.len() as int, x);
    let v = unkilled_views(r.unkilled_forbidden_states@);
    let j = choose|j: int| 0 <= j < v.len() && v[j] == x;
    assert(unkilled_view(r.unkilled_forbidden_states@[j]) == x);
}

} // verus!
