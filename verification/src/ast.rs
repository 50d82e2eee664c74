//! AST types for the `.memspec` v0 grammar.
//!
//! v0 uses a uniform block-item shape (`BlockDecl { kind, name, items }`).
//! Semantic classification per slot (required fields, ref resolution, ...)
//! happens in the analysis passes, not the parser.

use vstd::prelude::*;

use crate::lexer::ident_run;
use crate::span::Span;
use crate::text::bytes_as_chars;

verus! {

/// A parsed `.memspec` file. At most one slice.
#[derive(Debug)]
pub struct File {
    pub span: Span,
    pub slice: Option<SliceDecl>,
}

/// Top-level `slice IDENT { ... }` block.
#[derive(Debug)]
pub struct SliceDecl {
    pub span: Span,
    pub name: Ident,
    /// `use "<path>" as <alias>` declarations at the top of the body.
    pub imports: Vec<Import>,
    pub items: Vec<BlockItem>,
}

/// `use "<path>" as <alias>`: cross-slice import.
#[derive(Debug, Clone)]
pub struct Import {
    pub span: Span,
    pub path: String,
    pub path_span: Span,
    pub alias: Ident,
}

/// A named identifier with span.
#[derive(Debug, Clone)]
pub struct Ident {
    pub span: Span,
    pub name: String,
}

/// One item inside a block: a nested block or a `key: value` field.
#[derive(Debug)]
pub enum BlockItem {
    Block(BlockDecl),
    Field(Field),
}

/// `keyword [name] { items }`.
#[derive(Debug)]
pub struct BlockDecl {
    pub span: Span,
    pub kind: Ident,
    /// `None` for anonymous blocks (`meta { ... }`, `cells_after { ... }`).
    pub name: Option<BlockName>,
    pub items: Vec<BlockItem>,
}

/// A block's name: an identifier, or an integer for `walk N`.
#[derive(Debug, Clone)]
pub enum BlockName {
    Ident(Ident),
    Int { span: Span, value: i64 },
}

impl BlockName {
    pub fn span(&self) -> (s: Span)
        ensures
            s == spec_block_name_span(*self),
    {
        match self {
            BlockName::Ident(i) => i.span,
            BlockName::Int { span, .. } => *span,
        }
    }
}

pub open spec fn spec_block_name_span(n: BlockName) -> Span {
    match n {
        BlockName::Ident(i) => i.span,
        BlockName::Int { span, .. } => span,
    }
}

/// `key: value`.
#[derive(Debug)]
pub struct Field {
    pub span: Span,
    pub key: Ident,
    pub value: FieldValue,
}

#[derive(Debug)]
pub enum FieldValue {
    Ident(Ident),
    String { span: Span, value: String, is_triple: bool },
    Int { span: Span, value: i64 },
    Bool { span: Span, value: bool },
    /// `[a, b, c]`.
    List { span: Span, items: Vec<FieldValue> },
    /// `{ key: value, ... }`.
    Mapping { span: Span, entries: Vec<MapEntry> },
    /// `enum<a | b>` (alternation) or `map<K, V>` (positional).
    TypeApp { span: Span, head: Ident, params: Vec<FieldValue>, alternation: bool },
    /// `keyword(arg, ...)`.
    Call { span: Span, head: Ident, args: Vec<FieldValue> },
    /// `alias.id`: qualified reference into an imported slice.
    QualifiedIdent { span: Span, alias: Ident, name: Ident },
}

#[derive(Debug)]
pub struct MapEntry {
    pub span: Span,
    pub key: Ident,
    pub value: FieldValue,
}

impl FieldValue {
    pub fn span(&self) -> (s: Span)
        ensures
            s == spec_value_span(*self),
    {
        match self {
            FieldValue::Ident(i) => i.span,
            FieldValue::String { span, .. } => *span,
            FieldValue::Int { span, .. } => *span,
            FieldValue::Bool { span, .. } => *span,
            FieldValue::List { span, .. } => *span,
            FieldValue::Mapping { span, .. } => *span,
            FieldValue::TypeApp { span, .. } => *span,
            FieldValue::Call { span, .. } => *span,
            FieldValue::QualifiedIdent { span, .. } => *span,
        }
    }
}

pub open spec fn spec_value_span(v: FieldValue) -> Span {
    match v {
        FieldValue::Ident(i) => i.span,
        FieldValue::String { span, .. } => span,
        FieldValue::Int { span, .. } => span,
        FieldValue::Bool { span, .. } => span,
        FieldValue::List { span, .. } => span,
        FieldValue::Mapping { span, .. } => span,
        FieldValue::TypeApp { span, .. } => span,
        FieldValue::Call { span, .. } => span,
        FieldValue::QualifiedIdent { span, .. } => span,
    }
}


// ---------------------------------------------------------------------------
// Deep copies
// ---------------------------------------------------------------------------

/// `a` and `b` are the same value: equal but for being separate copies of
/// their lists.
pub open spec fn same_value(a: FieldValue, b: FieldValue) -> bool
    decreases a, 1int,
{
    match a {
        FieldValue::List { span, items } => b matches FieldValue::List { span: s2, items: i2 } && span == s2 && same_values(
            items@,
            i2@,
        ),
        FieldValue::Mapping { span, entries } => b matches FieldValue::Mapping { span: s2, entries: e2 } && span == s2
            && same_entries(entries@, e2@),
        FieldValue::TypeApp { span, head, params, alternation } => b matches FieldValue::TypeApp {
            span: s2,
            head: h2,
            params: p2,
            alternation: a2,
        } && span == s2 && head == h2 && alternation == a2 && same_values(params@, p2@),
        FieldValue::Call { span, head, args } => b matches FieldValue::Call { span: s2, head: h2, args: a2 } && span == s2
            && head == h2 && same_values(args@, a2@),
        _ => a == b,
    }
}

/// The values of `x` and `y` are pairwise the same.
pub open spec fn same_values(x: Seq<FieldValue>, y: Seq<FieldValue>) -> bool
    decreases x, 0int,
{
    &&& x.len() == y.len()
    &&& x.len() > 0 ==> same_values(x.drop_last(), y.drop_last()) && same_value(x.last(), y.last())
}

/// The map entries of `x` and `y` are pairwise the same.
pub open spec fn same_entries(x: Seq<MapEntry>, y: Seq<MapEntry>) -> bool
    decreases x, 0int,
{
    &&& x.len() == y.len()
    &&& x.len() > 0 ==> same_entries(x.drop_last(), y.drop_last()) && x.last().span == y.last().span && x.last().key
        == y.last().key && same_value(x.last().value, y.last().value)
}

/// `a` and `b` are the same item.
pub open spec fn same_item(a: BlockItem, b: BlockItem) -> bool
    decreases a, 1int,
{
    match a {
        BlockItem::Block(x) => b matches BlockItem::Block(y) && x.span == y.span && x.kind == y.kind && x.name == y.name
            && same_items(x.items@, y.items@),
        BlockItem::Field(f) => b matches BlockItem::Field(g) && f.span == g.span && f.key == g.key && same_value(
            f.value,
            g.value,
        ),
    }
}

/// The items of `x` and `y` are pairwise the same.
pub open spec fn same_items(x: Seq<BlockItem>, y: Seq<BlockItem>) -> bool
    decreases x, 0int,
{
    &&& x.len() == y.len()
    &&& x.len() > 0 ==> same_items(x.drop_last(), y.drop_last()) && same_item(x.last(), y.last())
}

fn clone_ident(i: &Ident) -> (r: Ident)
    ensures
        r.span == i.span,
        r.name@ == i.name@,
        r == *i,
{
    Ident { span: i.span, name: i.name.clone() }
}

fn clone_name(n: &Option<BlockName>) -> (r: Option<BlockName>)
    ensures
        r == *n,
{
    match n {
        Some(BlockName::Ident(i)) => Some(BlockName::Ident(clone_ident(i))),
        Some(BlockName::Int { span, value }) => Some(BlockName::Int { span: *span, value: *value }),
        None => None,
    }
}

#[verifier::loop_isolation(false)]
fn clone_value(v: &FieldValue) -> (r: FieldValue)
    ensures
        same_value(r, *v),
    decreases v,
{
    match v {
        FieldValue::Ident(i) => FieldValue::Ident(clone_ident(i)),
        FieldValue::String { span, value, is_triple } => FieldValue::String {
            span: *span,
            value: value.clone(),
            is_triple: *is_triple,
        },
        FieldValue::Int { span, value } => FieldValue::Int { span: *span, value: *value },
        FieldValue::Bool { span, value } => FieldValue::Bool { span: *span, value: *value },
        FieldValue::List { span, items } => FieldValue::List { span: *span, items: clone_values(items) },
        FieldValue::Mapping { span, entries } => {
            let mut out: Vec<MapEntry> = Vec::new();
            let mut i: usize = 0;
            assert(entries@.take(0) =~= Seq::<MapEntry>::empty());
            while i < entries.len()
                invariant
                    i <= entries@.len(),
                    same_entries(out@, entries@.take(i as int)),
                decreases entries@.len() - i,
            {
                let e = &entries[i];
                proof {
                    assert(decreases_to!(*v => entries@[i as int].value));
                }
                let ghost o = out@;
                out.push(MapEntry { span: e.span, key: clone_ident(&e.key), value: clone_value(&e.value) });
                proof {
                    let t = entries@.take(i + 1);
                    assert(t.drop_last() =~= entries@.take(i as int));
                    assert(out@.drop_last() =~= o);
                }
                i = i + 1;
            }
            assert(entries@.take(i as int) =~= entries@);
            FieldValue::Mapping { span: *span, entries: out }
        },
        FieldValue::TypeApp { span, head, params, alternation } => FieldValue::TypeApp {
            span: *span,
            head: clone_ident(head),
            params: clone_values(params),
            alternation: *alternation,
        },
        FieldValue::Call { span, head, args } => FieldValue::Call {
            span: *span,
            head: clone_ident(head),
            args: clone_values(args),
        },
        FieldValue::QualifiedIdent { span, alias, name } => FieldValue::QualifiedIdent {
            span: *span,
            alias: clone_ident(alias),
            name: clone_ident(name),
        },
    }
}

fn clone_values(vs: &Vec<FieldValue>) -> (r: Vec<FieldValue>)
    ensures
        same_values(r@, vs@),
    decreases vs,
{
    let mut out: Vec<FieldValue> = Vec::new();
    let mut i: usize = 0;
    assert(vs@.take(0) =~= Seq::<FieldValue>::empty());
    while i < vs.len()
        invariant
            i <= vs@.len(),
            same_values(out@, vs@.take(i as int)),
        decreases vs@.len() - i,
    {
        proof {
            assert(decreases_to!(*vs => vs@[i as int]));
        }
        let ghost o = out@;
        out.push(clone_value(&vs[i]));
        proof {
            let t = vs@.take(i + 1);
            assert(t.drop_last() =~= vs@.take(i as int));
            assert(out@.drop_last() =~= o);
        }
        i = i + 1;
    }
    assert(vs@.take(i as int) =~= vs@);
    out
}

fn clone_item(it: &BlockItem) -> (r: BlockItem)
    ensures
        same_item(r, *it),
    decreases it,
{
    match it {
        BlockItem::Block(b) => BlockItem::Block(clone_block(b)),
        BlockItem::Field(f) => BlockItem::Field(Field {
            span: f.span,
            key: clone_ident(&f.key),
            value: clone_value(&f.value),
        }),
    }
}

fn clone_block(b: &BlockDecl) -> (r: BlockDecl)
    ensures
        r.span == b.span && r.kind == b.kind && r.name == b.name,
        same_items(r.items@, b.items@),
    decreases b,
{
    let mut items: Vec<BlockItem> = Vec::new();
    let mut i: usize = 0;
    assert(b.items@.take(0) =~= Seq::<BlockItem>::empty());
    while i < b.items.len()
        invariant
            i <= b.items@.len(),
            same_items(items@, b.items@.take(i as int)),
        decreases b.items@.len() - i,
    {
        proof {
            assert(decreases_to!(*b => b.items@[i as int]));
        }
        let ghost o = items@;
        items.push(clone_item(&b.items[i]));
        proof {
            let t = b.items@.take(i + 1);
            assert(t.drop_last() =~= b.items@.take(i as int));
            assert(items@.drop_last() =~= o);
        }
        i = i + 1;
    }
    assert(b.items@.take(i as int) =~= b.items@);
    BlockDecl { span: b.span, kind: clone_ident(&b.kind), name: clone_name(&b.name), items }
}

impl Clone for FieldValue {
    fn clone(&self) -> Self {
        clone_value(self)
    }
}

impl Clone for MapEntry {
    fn clone(&self) -> Self {
        MapEntry { span: self.span, key: clone_ident(&self.key), value: clone_value(&self.value) }
    }
}

impl Clone for Field {
    fn clone(&self) -> Self {
        Field { span: self.span, key: clone_ident(&self.key), value: clone_value(&self.value) }
    }
}

impl Clone for BlockItem {
    fn clone(&self) -> Self {
        clone_item(self)
    }
}

impl Clone for BlockDecl {
    fn clone(&self) -> (r: Self)
        ensures
            r.span == self.span && r.kind == self.kind && r.name == self.name,
            same_items(r.items@, self.items@),
    {
        clone_block(self)
    }
}

impl Clone for SliceDecl {
    fn clone(&self) -> Self {
        let mut items: Vec<BlockItem> = Vec::new();
        let mut i: usize = 0;
        while i < self.items.len()
            invariant
                i <= self.items@.len(),
            decreases self.items@.len() - i,
        {
            items.push(clone_item(&self.items[i]));
            i = i + 1;
        }
        SliceDecl { span: self.span, name: clone_ident(&self.name), imports: self.imports.clone(), items }
    }
}

impl Clone for File {
    fn clone(&self) -> Self {
        File {
            span: self.span,
            slice: match &self.slice {
                Some(s) => Some(s.clone()),
                None => None,
            },
        }
    }
}

// ---------------------------------------------------------------------------
// Source fidelity: what the parser promises about the nodes it builds
// ---------------------------------------------------------------------------

/// A well-formed span inside a source of `n` bytes.
pub open spec fn span_in(s: Span, n: int) -> bool {
    s.start <= s.end <= n
}

/// An identifier node is an identifier token of the source: its span covers
/// a maximal identifier run and its name is that text.
pub open spec fn ident_ok(bs: Seq<u8>, id: Ident) -> bool {
    &&& ident_run(bs, id.span.start as int, id.span.end as int)
    &&& id.name@ == bytes_as_chars(bs.subrange(id.span.start as int, id.span.end as int))
}

/// Every node of a field value has a span inside the source, and every
/// identifier in it is an identifier token of the source.
pub open spec fn value_ok(bs: Seq<u8>, v: FieldValue) -> bool
    decreases v,
{
    match v {
        FieldValue::Ident(i) => ident_ok(bs, i),
        FieldValue::String { span, .. } => span_in(span, bs.len() as int),
        FieldValue::Int { span, .. } => span_in(span, bs.len() as int),
        FieldValue::Bool { span, .. } => span_in(span, bs.len() as int),
        FieldValue::List { span, items } => span_in(span, bs.len() as int) && forall|i: int|
            0 <= i < items@.len() ==> value_ok(bs, #[trigger] items@[i]),
        FieldValue::Mapping { span, entries } => span_in(span, bs.len() as int) && forall|i: int|
            0 <= i < entries@.len() ==> {
                &&& span_in((#[trigger] entries@[i]).span, bs.len() as int)
                &&& ident_ok(bs, entries@[i].key)
                &&& value_ok(bs, entries@[i].value)
            },
        FieldValue::TypeApp { span, head, params, .. } => span_in(span, bs.len() as int)
            && ident_ok(bs, head) && forall|i: int|
            0 <= i < params@.len() ==> value_ok(bs, #[trigger] params@[i]),
        FieldValue::Call { span, head, args } => span_in(span, bs.len() as int) && ident_ok(
            bs,
            head,
        ) && forall|i: int| 0 <= i < args@.len() ==> value_ok(bs, #[trigger] args@[i]),
        FieldValue::QualifiedIdent { span, alias, name } => span_in(span, bs.len() as int)
            && ident_ok(bs, alias) && ident_ok(bs, name),
    }
}

pub open spec fn name_ok(bs: Seq<u8>, n: BlockName) -> bool {
    match n {
        BlockName::Ident(i) => ident_ok(bs, i),
        BlockName::Int { span, .. } => span_in(span, bs.len() as int),
    }
}

/// Source fidelity of a block item, recursively.
pub open spec fn item_ok(bs: Seq<u8>, it: BlockItem) -> bool
    decreases it,
{
    match it {
        BlockItem::Field(f) => span_in(f.span, bs.len() as int) && ident_ok(bs, f.key) && value_ok(
            bs,
            f.value,
        ),
        BlockItem::Block(b) => {
            &&& span_in(b.span, bs.len() as int)
            &&& ident_ok(bs, b.kind)
            &&& (b.name matches Some(n) ==> name_ok(bs, n))
            &&& forall|i: int| 0 <= i < b.items@.len() ==> item_ok(bs, #[trigger] b.items@[i])
        },
    }
}

pub open spec fn block_ok(bs: Seq<u8>, b: BlockDecl) -> bool {
    item_ok(bs, BlockItem::Block(b))
}

pub open spec fn import_ok(bs: Seq<u8>, im: Import) -> bool {
    span_in(im.span, bs.len() as int) && span_in(im.path_span, bs.len() as int) && ident_ok(
        bs,
        im.alias,
    )
}

/// Every node of the file has a span inside the source and every identifier
/// is the text of an identifier token.
pub open spec fn file_ok(bs: Seq<u8>, f: File) -> bool {
    &&& span_in(f.span, bs.len() as int)
    &&& (f.slice matches Some(s) ==> {
        &&& span_in(s.span, bs.len() as int)
        &&& ident_ok(bs, s.name)
        &&& forall|i: int| 0 <= i < s.imports@.len() ==> import_ok(bs, #[trigger] s.imports@[i])
        &&& forall|i: int| 0 <= i < s.items@.len() ==> item_ok(bs, #[trigger] s.items@[i])
    })
}

} // verus!
