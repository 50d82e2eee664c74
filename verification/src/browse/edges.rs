//! The outgoing references of a declaration, and finding a declaration or
//! a step by name.

use vstd::prelude::*;

use crate::ast::{BlockDecl, BlockItem, BlockName, FieldValue, MapEntry};
use crate::text::owned;

verus! {

/// An edge as the graph panel lists it: the field it goes through and the
/// name it points at.
pub type Edge = (Seq<char>, Seq<char>);

/// The names a value points at through `field`: identifiers, qualified
/// references as `alias.name`, and inside lists, type applications and
/// calls the same again; a map's keys under `field.<key>`, then the names
/// in its values.
pub open spec fn value_edges(field: Seq<char>, v: FieldValue) -> Seq<Edge>
    decreases v, 1int,
{
    match v {
        FieldValue::Ident(i) => seq![(field, i.name@)],
        FieldValue::QualifiedIdent { alias, name, .. } => seq![(field, alias.name@ + "."@ + name.name@)],
        FieldValue::List { items, .. } => values_edges(field, items@),
        FieldValue::Mapping { entries, .. } => entries_edges(field, entries@),
        FieldValue::TypeApp { params, .. } => values_edges(field, params@),
        FieldValue::Call { args, .. } => values_edges(field, args@),
        _ => seq![],
    }
}

pub open spec fn values_edges(field: Seq<char>, s: Seq<FieldValue>) -> Seq<Edge>
    decreases s, 0int,
{
    if s.len() == 0 {
        seq![]
    } else {
        values_edges(field, s.drop_last()) + value_edges(field, s.last())
    }
}

pub open spec fn entries_edges(field: Seq<char>, s: Seq<MapEntry>) -> Seq<Edge>
    decreases s, 0int,
{
    if s.len() == 0 {
        seq![]
    } else {
        entries_edges(field, s.drop_last()) + seq![(field + ".<key>"@, s.last().key.name@)] + value_edges(
            field,
            s.last().value,
        )
    }
}

/// The keys of the fields among `items`, each under `key`.
pub open spec fn field_key_edges(key: Seq<char>, items: Seq<BlockItem>) -> Seq<Edge>
    decreases items.len(),
{
    if items.len() == 0 {
        seq![]
    } else {
        field_key_edges(key, items.drop_last()) + match items.last() {
            BlockItem::Field(f) => seq![(key, f.key.name@)],
            _ => seq![],
        }
    }
}

/// The edges of an item: a field's value through its key; a nested
/// block's field keys under `kind.<keys>`, then the edges of its items.
pub open spec fn item_edges(it: BlockItem) -> Seq<Edge>
    decreases it, 1int,
{
    match it {
        BlockItem::Field(f) => value_edges(f.key.name@, f.value),
        BlockItem::Block(b) => field_key_edges(b.kind.name@ + ".<keys>"@, b.items@) + items_edges(b.items@),
    }
}

pub open spec fn items_edges(s: Seq<BlockItem>) -> Seq<Edge>
    decreases s, 0int,
{
    if s.len() == 0 {
        seq![]
    } else {
        items_edges(s.drop_last()) + item_edges(s.last())
    }
}

pub open spec fn edges_view(v: Seq<(String, String)>) -> Seq<Edge> {
    v.map_values(|e: (String, String)| (e.0@, e.1@))
}

fn push_edge(out: &mut Vec<(String, String)>, field: String, target: String)
    ensures
        edges_view(final(out)@) == edges_view(old(out)@).push((field@, target@)),
{
    let ghost before = out@;
    out.push((field, target));
    assert(edges_view(out@) =~= edges_view(before).push((field@, target@)));
}

fn push_value_edges(field: &str, v: &FieldValue, out: &mut Vec<(String, String)>)
    ensures
        edges_view(final(out)@) == edges_view(old(out)@) + value_edges(field@, *v),
    decreases v,
{
    let ghost start = edges_view(out@);
    match v {
        FieldValue::Ident(i) => {
            push_edge(out, owned(field), i.name.clone());
        },
        FieldValue::QualifiedIdent { alias, name, .. } => {
            let mut t = alias.name.clone();
            t.append(".");
            t.append(name.name.as_str());
            push_edge(out, owned(field), t);
        },
        FieldValue::List { items, .. } => {
            push_values_edges(field, v, items, out);
        },
        FieldValue::TypeApp { params, .. } => {
            push_values_edges(field, v, params, out);
        },
        FieldValue::Call { args, .. } => {
            push_values_edges(field, v, args, out);
        },
        FieldValue::Mapping { entries, .. } => {
            let mut k: usize = 0;
            while k < entries.len()
                invariant
                    k <= entries@.len(),
                    *v == (FieldValue::Mapping { span: v->Mapping_span, entries: *entries }),
                    edges_view(out@) == start + entries_edges(field@, entries@.subrange(0, k as int)),
                decreases entries@.len() - k,
            {
                proof {
                    assert(entries@.subrange(0, k as int + 1).drop_last() =~= entries@.subrange(0, k as int));
                    assert(entries@.subrange(0, k as int + 1).last() == entries@[k as int]);
                    assert(v->Mapping_entries == *entries);
                    assert(decreases_to!(*v => v->Mapping_entries));
                    assert(decreases_to!(*entries => entries@));
                    assert(decreases_to!(entries@ => entries@[k as int]));
                    assert(decreases_to!(entries@[k as int] => entries@[k as int].value));
                }
                let mut key = owned(field);
                key.append(".<key>");
                push_edge(out, key, entries[k].key.name.clone());
                push_value_edges(field, &entries[k].value, out);
                assert(edges_view(out@) =~= start + entries_edges(field@, entries@.subrange(0, k as int + 1)));
                k = k + 1;
            }
            assert(entries@.subrange(0, entries@.len() as int) =~= entries@);
        },
        _ => {},
    }
    assert(edges_view(out@) =~= start + value_edges(field@, *v));
}

fn push_values_edges(field: &str, parent: &FieldValue, vals: &Vec<FieldValue>, out: &mut Vec<(String, String)>)
    requires
        forall|k: int| 0 <= k < vals@.len() ==> decreases_to!(*parent => #[trigger] vals@[k]),
    ensures
        edges_view(final(out)@) == edges_view(old(out)@) + values_edges(field@, vals@),
    decreases parent, 0int,
{
    let ghost start = edges_view(out@);
    let mut k: usize = 0;
    while k < vals.len()
        invariant
            k <= vals@.len(),
            forall|q: int| 0 <= q < vals@.len() ==> decreases_to!(*parent => #[trigger] vals@[q]),
            edges_view(out@) == start + values_edges(field@, vals@.subrange(0, k as int)),
        decreases vals@.len() - k,
    {
        proof {
            assert(vals@.subrange(0, k as int + 1).drop_last() =~= vals@.subrange(0, k as int));
            assert(vals@.subrange(0, k as int + 1).last() == vals@[k as int]);
            assert(decreases_to!(*parent => vals@[k as int]));
        }
        push_value_edges(field, &vals[k], out);
        assert(edges_view(out@) =~= start + values_edges(field@, vals@.subrange(0, k as int + 1)));
        k = k + 1;
    }
    assert(vals@.subrange(0, vals@.len() as int) =~= vals@);
}

#[verifier::loop_isolation(false)]
fn push_item_edges(it: &BlockItem, out: &mut Vec<(String, String)>)
    ensures
        edges_view(final(out)@) == edges_view(old(out)@) + item_edges(*it),
    decreases it,
{
    let ghost start = edges_view(out@);
    match it {
        BlockItem::Field(f) => {
            push_value_edges(f.key.name.as_str(), &f.value, out);
        },
        BlockItem::Block(b) => {
            let mut key = b.kind.name.clone();
            key.append(".<keys>");
            let mut k: usize = 0;
            while k < b.items.len()
                invariant
                    k <= b.items@.len(),
                    key@ == b.kind.name@ + ".<keys>"@,
                    edges_view(out@) == start + field_key_edges(key@, b.items@.subrange(0, k as int)),
                decreases b.items@.len() - k,
            {
                assert(b.items@.subrange(0, k as int + 1).drop_last() =~= b.items@.subrange(0, k as int));
                match &b.items[k] {
                    BlockItem::Field(f) => {
                        push_edge(out, key.clone(), f.key.name.clone());
                    },
                    _ => {},
                }
                assert(edges_view(out@) =~= start + field_key_edges(key@, b.items@.subrange(0, k as int + 1)));
                k = k + 1;
            }
            assert(b.items@.subrange(0, b.items@.len() as int) =~= b.items@);
            let ghost mid = edges_view(out@);
            let mut k: usize = 0;
            while k < b.items.len()
                invariant
                    k <= b.items@.len(),
                    edges_view(out@) == mid + items_edges(b.items@.subrange(0, k as int)),
                decreases b.items@.len() - k,
            {
                proof {
                    assert(b.items@.subrange(0, k as int + 1).drop_last() =~= b.items@.subrange(0, k as int));
                    assert(b.items@.subrange(0, k as int + 1).last() == b.items@[k as int]);
                    assert(decreases_to!(*it => b.items@[k as int]));
                }
                push_item_edges(&b.items[k], out);
                assert(edges_view(out@) =~= mid + items_edges(b.items@.subrange(0, k as int + 1)));
                k = k + 1;
            }
            assert(b.items@.subrange(0, b.items@.len() as int) =~= b.items@);
        },
    }
    assert(edges_view(out@) =~= start + item_edges(*it));
}

/// The outgoing references of a block, in the order its items give them.
pub fn collect_outbound(b: &BlockDecl) -> (r: Vec<(String, String)>)
    ensures
        edges_view(r@) == items_edges(b.items@),
{
    let mut out: Vec<(String, String)> = Vec::new();
    let mut k: usize = 0;
    while k < b.items.len()
        invariant
            k <= b.items@.len(),
            edges_view(out@) == items_edges(b.items@.subrange(0, k as int)),
        decreases b.items@.len() - k,
    {
        assert(b.items@.subrange(0, k as int + 1).drop_last() =~= b.items@.subrange(0, k as int));
        push_item_edges(&b.items[k], &mut out);
        k = k + 1;
    }
    assert(b.items@.subrange(0, b.items@.len() as int) =~= b.items@);
    out
}

// ---------------------------------------------------------------------------
// Finding declarations
// ---------------------------------------------------------------------------

/// The block's name is the identifier `id`.
pub open spec fn named(b: BlockDecl, id: Seq<char>) -> bool {
    b.name matches Some(BlockName::Ident(n)) && n.name@ == id
}

/// The first block among `items[i..]` named `id`, whatever its kind.
pub open spec fn named_block_from(items: Seq<BlockItem>, id: Seq<char>, i: int) -> Option<BlockDecl>
    decreases items.len() - i,
{
    if i < 0 || i >= items.len() {
        None
    } else {
        match items[i] {
            BlockItem::Block(b) => if named(b, id) {
                Some(b)
            } else {
                named_block_from(items, id, i + 1)
            },
            _ => named_block_from(items, id, i + 1),
        }
    }
}

/// The first block among `items[i..]` of kind `kind` named `id`.
pub open spec fn kind_block_from(items: Seq<BlockItem>, kind: Seq<char>, id: Seq<char>, i: int) -> Option<BlockDecl>
    decreases items.len() - i,
{
    if i < 0 || i >= items.len() {
        None
    } else {
        match items[i] {
            BlockItem::Block(b) => if b.kind.name@ == kind && named(b, id) {
                Some(b)
            } else {
                kind_block_from(items, kind, id, i + 1)
            },
            _ => kind_block_from(items, kind, id, i + 1),
        }
    }
}

fn is_named(b: &BlockDecl, id: &str) -> (r: bool)
    ensures
        r == named(*b, id@),
{
    match &b.name {
        Some(BlockName::Ident(n)) => crate::text::str_eq(n.name.as_str(), id),
        _ => false,
    }
}

/// The first top-level block named `id`.
pub fn find_named<'a>(items: &'a Vec<BlockItem>, id: &str) -> (r: Option<&'a BlockDecl>)
    ensures
        match r {
            Some(b) => named_block_from(items@, id@, 0) == Some(*b),
            None => named_block_from(items@, id@, 0) is None,
        },
{
    let mut i: usize = 0;
    while i < items.len()
        invariant
            i <= items@.len(),
            named_block_from(items@, id@, 0) == named_block_from(items@, id@, i as int),
        decreases items@.len() - i,
    {
        match &items[i] {
            BlockItem::Block(b) => {
                if is_named(b, id) {
                    return Some(b);
                }
            },
            _ => {},
        }
        i = i + 1;
    }
    None
}

/// The first block among `items` of kind `kind` named `id`.
pub fn find_kind_named<'a>(items: &'a Vec<BlockItem>, kind: &str, id: &str) -> (r: Option<&'a BlockDecl>)
    ensures
        match r {
            Some(b) => kind_block_from(items@, kind@, id@, 0) == Some(*b),
            None => kind_block_from(items@, kind@, id@, 0) is None,
        },
{
    let mut i: usize = 0;
    while i < items.len()
        invariant
            i <= items@.len(),
            kind_block_from(items@, kind@, id@, 0) == kind_block_from(items@, kind@, id@, i as int),
        decreases items@.len() - i,
    {
        match &items[i] {
            BlockItem::Block(b) => {
                if crate::text::str_eq(b.kind.name.as_str(), kind) && is_named(b, id) {
                    return Some(b);
                }
            },
            _ => {},
        }
        i = i + 1;
    }
    None
}

/// The step `step` of the first top-level block named `event`.
pub open spec fn spec_find_step(items: Seq<BlockItem>, event: Seq<char>, step: Seq<char>) -> Option<BlockDecl> {
    match named_block_from(items, event, 0) {
        Some(e) => kind_block_from(e.items@, "step"@, step, 0),
        None => None,
    }
}

pub fn find_step<'a>(items: &'a Vec<BlockItem>, event: &str, step: &str) -> (r: Option<&'a BlockDecl>)
    ensures
        match r {
            Some(b) => spec_find_step(items@, event@, step@) == Some(*b),
            None => spec_find_step(items@, event@, step@) is None,
        },
{
    match find_named(items, event) {
        Some(e) => find_kind_named(&e.items, "step", step),
        None => None,
    }
}

/// The first step named `step` of a top-level `event` block named `event`
/// among `items[i..]`: the events named so are searched in order.
pub open spec fn event_step_from(items: Seq<BlockItem>, event: Seq<char>, step: Seq<char>, i: int) -> Option<BlockDecl>
    decreases items.len() - i,
{
    if i < 0 || i >= items.len() {
        None
    } else {
        match items[i] {
            BlockItem::Block(b) => if b.kind.name@ == "event"@ && named(b, event) {
                match kind_block_from(b.items@, "step"@, step, 0) {
                    Some(s) => Some(s),
                    None => event_step_from(items, event, step, i + 1),
                }
            } else {
                event_step_from(items, event, step, i + 1)
            },
            _ => event_step_from(items, event, step, i + 1),
        }
    }
}

pub fn find_event_step<'a>(items: &'a Vec<BlockItem>, event: &str, step: &str) -> (r: Option<&'a BlockDecl>)
    ensures
        match r {
            Some(b) => event_step_from(items@, event@, step@, 0) == Some(*b),
            None => event_step_from(items@, event@, step@, 0) is None,
        },
{
    let mut i: usize = 0;
    while i < items.len()
        invariant
            i <= items@.len(),
            event_step_from(items@, event@, step@, 0) == event_step_from(items@, event@, step@, i as int),
        decreases items@.len() - i,
    {
        match &items[i] {
            BlockItem::Block(b) => {
                if crate::text::str_eq(b.kind.name.as_str(), "event") && is_named(b, event) {
                    match find_kind_named(&b.items, "step", step) {
                        Some(s) => {
                            return Some(s);
                        },
                        None => {},
                    }
                }
            },
            _ => {},
        }
        i = i + 1;
    }
    None
}

} // verus!
