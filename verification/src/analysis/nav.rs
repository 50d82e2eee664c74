//! AST navigation shared by the analysis passes: field and nested-block
//! lookup by name, identifier collection from field values.

use vstd::prelude::*;

use crate::ast::{BlockDecl, BlockItem, BlockName, FieldValue, Ident, MapEntry};
use crate::span::Span;
use crate::text::{is_lit, str_eq};

verus! {

/// The value of the first field named `key` at or after index `i`.
pub open spec fn field_from(items: Seq<BlockItem>, key: Seq<char>, i: int) -> Option<FieldValue>
    decreases items.len() - i,
{
    if i < 0 || i >= items.len() {
        None
    } else if items[i] is Field && items[i]->Field_0.key.name@ == key {
        Some(items[i]->Field_0.value)
    } else {
        field_from(items, key, i + 1)
    }
}

/// The value of the first `key:` field directly inside the block.
pub open spec fn spec_field_value(b: BlockDecl, key: Seq<char>) -> Option<FieldValue> {
    field_from(b.items@, key, 0)
}

/// The first nested block of kind `kind` at or after index `i`.
pub open spec fn block_from(items: Seq<BlockItem>, kind: Seq<char>, i: int) -> Option<BlockDecl>
    decreases items.len() - i,
{
    if i < 0 || i >= items.len() {
        None
    } else if items[i] is Block && items[i]->Block_0.kind.name@ == kind {
        Some(items[i]->Block_0)
    } else {
        block_from(items, kind, i + 1)
    }
}

/// The first nested block of kind `kind` directly inside the block.
pub open spec fn spec_nested_block(b: BlockDecl, kind: Seq<char>) -> Option<BlockDecl> {
    block_from(b.items@, kind, 0)
}

/// Number of nested blocks of kind `kind` among `items[i..]`.
pub open spec fn blocks_count(items: Seq<BlockItem>, kind: Seq<char>, i: int) -> nat
    decreases items.len() - i,
{
    if i < 0 || i >= items.len() {
        0
    } else {
        blocks_count(items, kind, i + 1) + if items[i] is Block && items[i]->Block_0.kind.name@
            == kind {
            1nat
        } else {
            0nat
        }
    }
}

pub open spec fn spec_block_name_ident(b: BlockDecl) -> Option<Ident> {
    match b.name {
        Some(BlockName::Ident(i)) => Some(i),
        _ => None,
    }
}

pub open spec fn spec_field_ident(b: BlockDecl, key: Seq<char>) -> Option<Ident> {
    match spec_field_value(b, key) {
        Some(FieldValue::Ident(i)) => Some(i),
        _ => None,
    }
}

pub open spec fn spec_field_is_true(b: BlockDecl, key: Seq<char>) -> bool {
    spec_field_value(b, key) matches Some(FieldValue::Bool { value: true, .. })
}

pub fn field_value<'a>(block: &'a BlockDecl, key: &str) -> (r: Option<&'a FieldValue>)
    ensures
        match r {
            Some(v) => spec_field_value(*block, key@) == Some(*v),
            None => spec_field_value(*block, key@) is None,
        },
{
    let items = &block.items;
    let mut i: usize = 0;
    while i < items.len()
        invariant
            i <= items@.len(),
            field_from(items@, key@, 0) == field_from(items@, key@, i as int),
            items@ == block.items@,
        decreases items@.len() - i,
    {
        match &items[i] {
            BlockItem::Field(f) => {
                if str_eq(f.key.name.as_str(), key) {
                    assert(items@[i as int] == BlockItem::Field(*f));
                    assert(f.key.name@ == key@);
                    assert(field_from(items@, key@, i as int) == Some(f.value));
                    return Some(&f.value);
                }
            },
            _ => {},
        }
        i = i + 1;
    }
    None
}

pub fn nested_block<'a>(block: &'a BlockDecl, kind: &str) -> (r: Option<&'a BlockDecl>)
    ensures
        match r {
            Some(b) => spec_nested_block(*block, kind@) == Some(*b),
            None => spec_nested_block(*block, kind@) is None,
        },
{
    let items = &block.items;
    let mut i: usize = 0;
    while i < items.len()
        invariant
            i <= items@.len(),
            block_from(items@, kind@, 0) == block_from(items@, kind@, i as int),
            items@ == block.items@,
        decreases items@.len() - i,
    {
        match &items[i] {
            BlockItem::Block(b) => {
                if str_eq(b.kind.name.as_str(), kind) {
                    assert(items@[i as int] == BlockItem::Block(*b));
                    return Some(b);
                }
            },
            _ => {},
        }
        i = i + 1;
    }
    None
}

pub fn has_field(block: &BlockDecl, key: &str) -> (r: bool)
    ensures
        r == (spec_field_value(*block, key@) is Some),
{
    field_value(block, key).is_some()
}

pub fn has_block(block: &BlockDecl, kind: &str) -> (r: bool)
    ensures
        r == (spec_nested_block(*block, kind@) is Some),
{
    nested_block(block, kind).is_some()
}

pub fn count_blocks_named(block: &BlockDecl, kind: &str) -> (n: usize)
    ensures
        n == blocks_count(block.items@, kind@, 0),
{
    let items = &block.items;
    let len = items.len();
    let mut i: usize = len;
    let mut n: usize = 0;
    while i > 0
        invariant
            i <= items@.len(),
            n == blocks_count(items@, kind@, i as int),
            n <= items@.len() - i,
            len == items@.len(),
        decreases i,
    {
        i = i - 1;
        match &items[i] {
            BlockItem::Block(b) => {
                if str_eq(b.kind.name.as_str(), kind) {
                    n = n + 1;
                }
            },
            _ => {},
        }
    }
    n
}

pub fn block_name_ident(block: &BlockDecl) -> (r: Option<&Ident>)
    ensures
        match r {
            Some(i) => spec_block_name_ident(*block) == Some(*i),
            None => spec_block_name_ident(*block) is None,
        },
{
    match &block.name {
        Some(BlockName::Ident(i)) => Some(i),
        _ => None,
    }
}

/// The block's identifier name as text.
pub fn block_name_str(block: &BlockDecl) -> (r: Option<&str>)
    ensures
        match r {
            Some(s) => spec_block_name_ident(*block) matches Some(i) && i.name@ == s@,
            None => spec_block_name_ident(*block) is None,
        },
{
    match &block.name {
        Some(BlockName::Ident(i)) => Some(i.name.as_str()),
        _ => None,
    }
}

pub fn field_ident<'a>(block: &'a BlockDecl, key: &str) -> (r: Option<&'a Ident>)
    ensures
        match r {
            Some(i) => spec_field_ident(*block, key@) == Some(*i),
            None => spec_field_ident(*block, key@) is None,
        },
{
    match field_value(block, key) {
        Some(FieldValue::Ident(i)) => Some(i),
        _ => None,
    }
}

pub fn field_is_true(block: &BlockDecl, key: &str) -> (r: bool)
    ensures
        r == spec_field_is_true(*block, key@),
{
    match field_value(block, key) {
        Some(FieldValue::Bool { value, .. }) => *value,
        _ => false,
    }
}

/// Identifiers named by a field value: the identifier itself, or the
/// identifiers of a list, flattened in order. Other values name none.
pub open spec fn idents_of(v: FieldValue) -> Seq<Ident>
    decreases v, 1int,
{
    match v {
        FieldValue::Ident(i) => seq![i],
        FieldValue::List { items, .. } => idents_of_seq(items@),
        _ => seq![],
    }
}

pub open spec fn idents_of_seq(s: Seq<FieldValue>) -> Seq<Ident>
    decreases s, 0int,
{
    if s.len() == 0 {
        seq![]
    } else {
        idents_of_seq(s.drop_last()) + idents_of(s.last())
    }
}

/// Collect identifiers from a field value; lists are flattened and
/// non-identifier items skipped.
#[verifier::loop_isolation(false)]
pub fn collect_idents<'a>(value: &'a FieldValue) -> (r: Vec<(&'a str, Span)>)
    ensures
        r@.len() == idents_of(*value).len(),
        forall|i: int|
            0 <= i < r@.len() ==> (#[trigger] r@[i]).0@ == idents_of(*value)[i].name@ && r@[i].1
                == idents_of(*value)[i].span,
    decreases value,
{
    let mut out: Vec<(&'a str, Span)> = Vec::new();
    match value {
        FieldValue::Ident(i) => {
            out.push((i.name.as_str(), i.span));
        },
        FieldValue::List { items, .. } => {
            let mut k: usize = 0;
            while k < items.len()
                invariant
                    k <= items@.len(),
                    *value == (FieldValue::List { span: value->List_span, items: *items }),
                    out@.len() == idents_of_seq(items@.subrange(0, k as int)).len(),
                    forall|i: int|
                        0 <= i < out@.len() ==> (#[trigger] out@[i]).0@ == idents_of_seq(
                            items@.subrange(0, k as int),
                        )[i].name@ && out@[i].1 == idents_of_seq(items@.subrange(0, k as int))[i].span,
                decreases items@.len() - k,
            {
                proof {
                    assert(decreases_to!(*value => items@[k as int]));
                }
                let sub = collect_idents(&items[k]);
                let ghost prev = idents_of_seq(items@.subrange(0, k as int));
                let ghost oldout = out@;
                let mut j: usize = 0;
                while j < sub.len()
                    invariant
                        j <= sub@.len(),
                        out@.len() == oldout.len() + j,
                        forall|i: int| 0 <= i < oldout.len() ==> out@[i] == oldout[i],
                        forall|i: int|
                            0 <= i < j ==> (#[trigger] out@[oldout.len() + i]) == sub@[i],
                    decreases sub@.len() - j,
                {
                    out.push(sub[j]);
                    j = j + 1;
                }
                proof {
                    let nxt = items@.subrange(0, k as int + 1);
                    assert(nxt.drop_last() =~= items@.subrange(0, k as int));
                    assert(nxt.last() == items@[k as int]);
                    assert(idents_of_seq(nxt) == prev + idents_of(items@[k as int]));
                    assert forall|i: int| 0 <= i < out@.len() implies (#[trigger] out@[i]).0@
                        == idents_of_seq(nxt)[i].name@ && out@[i].1 == idents_of_seq(nxt)[i].span by {
                        if i < oldout.len() {
                            assert(out@[i] == oldout[i]);
                            assert(idents_of_seq(nxt)[i] == prev[i]);
                        } else {
                            let j = i - oldout.len();
                            assert(out@[oldout.len() + j] == sub@[j]);
                            assert(idents_of_seq(nxt)[i] == idents_of(items@[k as int])[j]);
                        }
                    }
                }
                k = k + 1;
            }
            assert(items@.subrange(0, items@.len() as int) =~= items@);
        },
        _ => {},
    }
    out
}

/// Map keys written by a `{ k: v }` value.
pub open spec fn map_keys_of(v: FieldValue) -> Seq<Ident> {
    match v {
        FieldValue::Mapping { entries, .. } => entries@.map_values(|e: MapEntry| e.key),
        _ => seq![],
    }
}

/// Collect map keys from a `{ k: v }` value.
pub fn collect_map_keys<'a>(value: &'a FieldValue) -> (r: Vec<(&'a str, Span)>)
    ensures
        r@.len() == map_keys_of(*value).len(),
        forall|i: int|
            0 <= i < r@.len() ==> (#[trigger] r@[i]).0@ == map_keys_of(*value)[i].name@ && r@[i].1
                == map_keys_of(*value)[i].span,
{
    let mut out: Vec<(&'a str, Span)> = Vec::new();
    match value {
        FieldValue::Mapping { entries, .. } => {
            let mut k: usize = 0;
            while k < entries.len()
                invariant
                    k <= entries@.len(),
                    *value == (FieldValue::Mapping { span: value->Mapping_span, entries: *entries }),
                    out@.len() == k,
                    forall|i: int|
                        0 <= i < k ==> (#[trigger] out@[i]).0@ == entries@[i].key.name@ && out@[i].1
                            == entries@[i].key.span,
                decreases entries@.len() - k,
            {
                out.push((entries[k].key.name.as_str(), entries[k].key.span));
                k = k + 1;
            }
        },
        _ => {},
    }
    out
}

/// `b`'s kind is the literal `kind`.
pub fn kind_is(b: &BlockDecl, kind: &str) -> (r: bool)
    ensures
        r == (b.kind.name@ == kind@),
{
    is_lit(&b.kind.name, kind)
}

} // verus!
