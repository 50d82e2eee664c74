//! A declaration block as styled lines: a heading, then one line per field
//! with the keys of a block aligned, a long value broken onto the lines
//! below its key, and nested blocks indented beneath their own heading.

use vstd::prelude::*;

use crate::ast::{BlockDecl, BlockItem, BlockName, Field, FieldValue, MapEntry};
use crate::browse::rows::clamp_usize;
use crate::browse::styled::{
    Segment, SegView, Tone, append_lines, blen, inline_len, lines_view, multi, push_line, push_seg, repeat,
    repeat_str, segs_view, should_go_multiline, single_line, value_inline_len, value_segments, value_segs,
};
use crate::text::{i64_text, int_text, owned};

verus! {

/// `a - b`, and 0 when `b` is larger.
pub open spec fn sat_sub(a: nat, b: nat) -> nat {
    if a >= b {
        (a - b) as nat
    } else {
        0
    }
}

/// `"── label ──"` as a heading line.
pub open spec fn section_seg(label: Seq<char>) -> Seq<SegView> {
    seq![("── "@ + label + " ──"@, Tone::Heading)]
}

pub fn section_line(label: &str) -> (l: Vec<Segment>)
    ensures
        segs_view(l@) == section_seg(label@),
{
    let mut t = owned("── ");
    t.append(label);
    t.append(" ──");
    single_line(t, Tone::Heading)
}

/// `key` padded on the right to 14 characters.
pub open spec fn pad14(key: Seq<char>) -> Seq<char> {
    key + repeat(" "@, sat_sub(14, key.len()))
}

/// A labelled value: the label indented and padded to a column, then the
/// value.
pub open spec fn kv_seg(key: Seq<char>, value: Seq<char>) -> Seq<SegView> {
    seq![("  "@ + pad14(key), Tone::Key), (value, Tone::Raw)]
}

pub fn kv_line(key: &str, value: &str) -> (l: Vec<Segment>)
    ensures
        segs_view(l@) == kv_seg(key@, value@),
{
    let n = key.unicode_len();
    let pad = repeat_str(" ", if n < 14 {
        14 - n
    } else {
        0
    });
    let mut k = owned("  ");
    k.append(key);
    k.append(pad.as_str());
    assert(k@ =~= "  "@ + pad14(key@));
    let mut l: Vec<Segment> = Vec::new();
    push_seg(&mut l, k, Tone::Key);
    push_seg(&mut l, owned(value), Tone::Raw);
    assert(segs_view(l@) =~= kv_seg(key@, value@));
    l
}

/// The widest key among the fields of `items`, in bytes.
pub open spec fn max_key(items: Seq<BlockItem>) -> nat
    decreases items.len(),
{
    if items.len() == 0 {
        0
    } else {
        let m = max_key(items.drop_last());
        match items.last() {
            BlockItem::Field(f) => if blen(f.key.name@) > m {
                blen(f.key.name@)
            } else {
                m
            },
            _ => m,
        }
    }
}

/// The widest key among `entries`, in bytes.
pub open spec fn max_entry_key(es: Seq<MapEntry>) -> nat
    decreases es.len(),
{
    if es.len() == 0 {
        0
    } else {
        let m = max_entry_key(es.drop_last());
        if blen(es.last().key.name@) > m {
            blen(es.last().key.name@)
        } else {
            m
        }
    }
}

/// A block's name as a heading shows it: the identifier, the number, or
/// `none` for an anonymous block.
pub open spec fn name_label(n: Option<BlockName>, none: Seq<char>) -> Seq<char> {
    match n {
        Some(BlockName::Ident(i)) => i.name@,
        Some(BlockName::Int { value, .. }) => int_text(value as int),
        None => none,
    }
}

fn name_label_text(n: &Option<BlockName>, none: &str) -> (r: String)
    ensures
        r@ == name_label(*n, none@),
{
    match n {
        Some(BlockName::Ident(i)) => i.name.clone(),
        Some(BlockName::Int { value, .. }) => i64_text(*value),
        None => owned(none),
    }
}

pub type LinesView = Seq<Seq<SegView>>;

/// A long value over lines at indent depth `d`: a list as one bullet per
/// item (a long item as a placeholder bullet with the item beneath it), a
/// map as one key per line with the values aligned, a string on a line of
/// its own, anything else inline on one line.
pub open spec fn value_lines(v: FieldValue, d: nat) -> LinesView
    decreases v, 1int,
{
    match v {
        FieldValue::List { items, .. } => list_item_lines(items@, d),
        FieldValue::Mapping { entries, .. } => entry_lines(entries@, d, max_entry_key(entries@)),
        FieldValue::String { value, .. } => seq![seq![(repeat("  "@, d), Tone::Raw), ("\""@ + value@ + "\""@, Tone::Text)]],
        _ => seq![seq![(repeat("  "@, d), Tone::Raw)] + value_segs(v)],
    }
}

pub open spec fn list_item_lines(s: Seq<FieldValue>, d: nat) -> LinesView
    decreases s, 0int,
{
    if s.len() == 0 {
        seq![]
    } else {
        list_item_lines(s.drop_last(), d) + if multi(s.last()) {
            seq![seq![(repeat("  "@, d), Tone::Raw), ("· "@, Tone::Muted), ("(nested)"@, Tone::Muted)]] + value_lines(
                s.last(),
                d + 1,
            )
        } else {
            seq![seq![(repeat("  "@, d), Tone::Raw), ("· "@, Tone::Muted)] + value_segs(s.last())]
        }
    }
}

pub open spec fn entry_lines(s: Seq<MapEntry>, d: nat, mk: nat) -> LinesView
    decreases s, 0int,
{
    if s.len() == 0 {
        seq![]
    } else {
        let e = s.last();
        entry_lines(s.drop_last(), d, mk) + if multi(e.value) {
            seq![seq![(repeat("  "@, d), Tone::Raw), (e.key.name@, Tone::Key)]] + value_lines(e.value, d + 1)
        } else {
            seq![
                seq![
                    (repeat("  "@, d), Tone::Raw),
                    (e.key.name@, Tone::Key),
                    (repeat(" "@, sat_sub(mk, blen(e.key.name@)) + 2), Tone::Raw),
                ] + value_segs(e.value),
            ]
        }
    }
}

/// A field at depth `d` of a block whose widest key is `mk` bytes: a long
/// value under its key, a short one beside it, the values aligned.
pub open spec fn field_lines(f: Field, d: nat, mk: nat) -> LinesView {
    if multi(f.value) {
        seq![seq![(repeat("  "@, d + 1), Tone::Raw), (f.key.name@, Tone::KeyStrong)]] + value_lines(f.value, d + 2)
    } else {
        seq![
            seq![
                (repeat("  "@, d + 1), Tone::Raw),
                (f.key.name@, Tone::Key),
                (repeat(" "@, sat_sub(mk, blen(f.key.name@)) + 2), Tone::Raw),
            ] + value_segs(f.value),
        ]
    }
}

/// An item at depth `d`: a field, or a nested block's heading with its
/// items one level deeper.
pub open spec fn item_lines(it: BlockItem, d: nat, mk: nat) -> LinesView
    decreases it, 2int,
{
    match it {
        BlockItem::Field(f) => field_lines(f, d, mk),
        BlockItem::Block(b) => seq![
            seq![
                (repeat("  "@, d + 1), Tone::Raw),
                ("▸ "@ + b.kind.name@ + " "@ + name_label(b.name, "(anon)"@), Tone::BlockHeading),
            ],
        ] + items_lines(b.items@, d + 1),
    }
}

pub open spec fn items_lines(s: Seq<BlockItem>, d: nat) -> LinesView
    decreases s, 1int,
{
    items_from(s, d, max_key(s))
}

pub open spec fn items_from(s: Seq<BlockItem>, d: nat, mk: nat) -> LinesView
    decreases s, 0int,
{
    if s.len() == 0 {
        seq![]
    } else {
        items_from(s.drop_last(), d, mk) + item_lines(s.last(), d, mk)
    }
}

/// A block as the detail panel shows it: a heading with its kind and name,
/// then its items.
pub open spec fn spec_block_lines(b: BlockDecl) -> LinesView {
    seq![section_seg(b.kind.name@ + " "@ + name_label(b.name, "<anon>"@))] + items_lines(b.items@, 0)
}

fn byte_len(s: &str) -> (n: usize)
    ensures
        n == blen(s@),
{
    s.as_bytes().len()
}

fn keys_width(items: &Vec<BlockItem>) -> (mk: usize)
    ensures
        mk == max_key(items@),
{
    let mut mk: usize = 0;
    let mut i: usize = 0;
    while i < items.len()
        invariant
            i <= items@.len(),
            mk == max_key(items@.subrange(0, i as int)),
        decreases items@.len() - i,
    {
        assert(items@.subrange(0, i as int + 1).drop_last() =~= items@.subrange(0, i as int));
        match &items[i] {
            BlockItem::Field(f) => {
                let n = byte_len(f.key.name.as_str());
                if n > mk {
                    mk = n;
                }
            },
            _ => {},
        }
        i = i + 1;
    }
    assert(items@.subrange(0, items@.len() as int) =~= items@);
    mk
}

fn entry_keys_width(es: &Vec<MapEntry>) -> (mk: usize)
    ensures
        mk == max_entry_key(es@),
{
    let mut mk: usize = 0;
    let mut i: usize = 0;
    while i < es.len()
        invariant
            i <= es@.len(),
            mk == max_entry_key(es@.subrange(0, i as int)),
        decreases es@.len() - i,
    {
        assert(es@.subrange(0, i as int + 1).drop_last() =~= es@.subrange(0, i as int));
        let n = byte_len(es[i].key.name.as_str());
        if n > mk {
            mk = n;
        }
        i = i + 1;
    }
    assert(es@.subrange(0, es@.len() as int) =~= es@);
    mk
}

fn pad_for(mk: usize, key: &str) -> (r: String)
    ensures
        r@ == repeat(" "@, sat_sub(mk as nat, blen(key@)) + 2),
{
    let n = byte_len(key);
    let gap: usize = if mk >= n {
        mk - n
    } else {
        0
    };
    if gap > usize::MAX - 2 {
        let mut r = repeat_str(" ", gap);
        r.append(" ");
        assert(r@ == repeat(" "@, gap as nat + 1));
        r.append(" ");
        assert(r@ == repeat(" "@, gap as nat + 2));
        r
    } else {
        repeat_str(" ", gap + 2)
    }
}

fn deeper(ind: &str) -> (r: String)
    ensures
        r@ == ind@ + "  "@,
{
    let mut r = owned(ind);
    r.append("  ");
    r
}

proof fn lemma_repeat_step(s: Seq<char>, n: nat)
    ensures
        repeat(s, n) + s == repeat(s, n + 1),
{
}

fn push_value_lines(v: &FieldValue, ind: &str, Ghost(d): Ghost<nat>, out: &mut Vec<Vec<Segment>>)
    requires
        ind@ == repeat("  "@, d),
    ensures
        lines_view(final(out)@) == lines_view(old(out)@) + value_lines(*v, d),
    decreases v,
{
    let ghost start = lines_view(out@);
    match v {
        FieldValue::List { items, .. } => {
            let inner = deeper(ind);
            proof {
                lemma_repeat_step("  "@, d);
            }
            let mut k: usize = 0;
            while k < items.len()
                invariant
                    k <= items@.len(),
                    ind@ == repeat("  "@, d),
                    inner@ == repeat("  "@, d + 1),
                    *v == (FieldValue::List { span: v->List_span, items: *items }),
                    lines_view(out@) == start + list_item_lines(items@.subrange(0, k as int), d),
                decreases items@.len() - k,
            {
                proof {
                    assert(items@.subrange(0, k as int + 1).drop_last() =~= items@.subrange(0, k as int));
                    assert(v->List_items == *items);
                    assert(decreases_to!(*v => v->List_items));
                    assert(decreases_to!(*items => items@));
                    assert(decreases_to!(items@ => items@[k as int]));
                    assert(items@.subrange(0, k as int + 1).last() == items@[k as int]);
                }
                let it = &items[k];
                let w = value_inline_len(it);
                let mut line: Vec<Segment> = Vec::new();
                push_seg(&mut line, owned(ind), Tone::Raw);
                push_seg(&mut line, owned("· "), Tone::Muted);
                if should_go_multiline(it, w) {
                    push_seg(&mut line, owned("(nested)"), Tone::Muted);
                    push_line(out, line);
                    push_value_lines(it, inner.as_str(), Ghost(d + 1), out);
                } else {
                    let segs = value_segments(it);
                    let mut segs = segs;
                    let ghost lv = segs_view(line@);
                    let ghost sv = segs_view(segs@);
                    line.append(&mut segs);
                    assert(segs_view(line@) =~= lv + sv);
                    push_line(out, line);
                }
                assert(lines_view(out@) =~~= start + list_item_lines(items@.subrange(0, k as int + 1), d));
                k = k + 1;
            }
            assert(items@.subrange(0, items@.len() as int) =~= items@);
        },
        FieldValue::Mapping { entries, .. } => {
            let mk = entry_keys_width(entries);
            let inner = deeper(ind);
            proof {
                lemma_repeat_step("  "@, d);
            }
            let mut k: usize = 0;
            while k < entries.len()
                invariant
                    k <= entries@.len(),
                    ind@ == repeat("  "@, d),
                    inner@ == repeat("  "@, d + 1),
                    mk == max_entry_key(entries@),
                    *v == (FieldValue::Mapping { span: v->Mapping_span, entries: *entries }),
                    lines_view(out@) == start + entry_lines(entries@.subrange(0, k as int), d, mk as nat),
                decreases entries@.len() - k,
            {
                proof {
                    assert(entries@.subrange(0, k as int + 1).drop_last() =~= entries@.subrange(0, k as int));
                    assert(v->Mapping_entries == *entries);
                    assert(decreases_to!(*v => v->Mapping_entries));
                    assert(decreases_to!(*entries => entries@));
                    assert(decreases_to!(entries@ => entries@[k as int]));
                    assert(decreases_to!(entries@[k as int] => entries@[k as int].value));
                    assert(entries@.subrange(0, k as int + 1).last() == entries@[k as int]);
                }
                let e = &entries[k];
                let w = value_inline_len(&e.value);
                let mut line: Vec<Segment> = Vec::new();
                push_seg(&mut line, owned(ind), Tone::Raw);
                push_seg(&mut line, e.key.name.clone(), Tone::Key);
                if should_go_multiline(&e.value, w) {
                    push_line(out, line);
                    push_value_lines(&e.value, inner.as_str(), Ghost(d + 1), out);
                } else {
                    let pad = pad_for(mk, e.key.name.as_str());
                    push_seg(&mut line, pad, Tone::Raw);
                    let mut segs = value_segments(&e.value);
                    let ghost lv = segs_view(line@);
                    let ghost sv = segs_view(segs@);
                    line.append(&mut segs);
                    assert(segs_view(line@) =~= lv + sv);
                    push_line(out, line);
                }
                assert(lines_view(out@) =~~= start + entry_lines(entries@.subrange(0, k as int + 1), d, mk as nat));
                k = k + 1;
            }
            assert(entries@.subrange(0, entries@.len() as int) =~= entries@);
        },
        FieldValue::String { value: s, .. } => {
            let mut t = owned("\"");
            t.append(s.as_str());
            t.append("\"");
            let mut line: Vec<Segment> = Vec::new();
            push_seg(&mut line, owned(ind), Tone::Raw);
            push_seg(&mut line, t, Tone::Text);
            push_line(out, line);
        },
        _ => {
            let mut line: Vec<Segment> = Vec::new();
            push_seg(&mut line, owned(ind), Tone::Raw);
            let mut segs = value_segments(v);
            let ghost lv = segs_view(line@);
            let ghost sv = segs_view(segs@);
            line.append(&mut segs);
            assert(segs_view(line@) =~= lv + sv);
            push_line(out, line);
        },
    }
    assert(lines_view(out@) =~~= start + value_lines(*v, d));
}

#[verifier::loop_isolation(false)]
fn push_item_lines(it: &BlockItem, ind: &str, Ghost(d): Ghost<nat>, mk: usize, out: &mut Vec<Vec<Segment>>)
    requires
        ind@ == repeat("  "@, d + 1),
    ensures
        lines_view(final(out)@) == lines_view(old(out)@) + item_lines(*it, d, mk as nat),
    decreases it,
{
    let ghost start = lines_view(out@);
    proof {
        lemma_repeat_step("  "@, d + 1);
    }
    match it {
        BlockItem::Field(f) => {
            let w = value_inline_len(&f.value);
            let mut line: Vec<Segment> = Vec::new();
            push_seg(&mut line, owned(ind), Tone::Raw);
            if should_go_multiline(&f.value, w) {
                push_seg(&mut line, f.key.name.clone(), Tone::KeyStrong);
                push_line(out, line);
                let inner = deeper(ind);
                push_value_lines(&f.value, inner.as_str(), Ghost(d + 2), out);
            } else {
                push_seg(&mut line, f.key.name.clone(), Tone::Key);
                let pad = pad_for(mk, f.key.name.as_str());
                push_seg(&mut line, pad, Tone::Raw);
                let mut segs = value_segments(&f.value);
                let ghost lv = segs_view(line@);
                let ghost sv = segs_view(segs@);
                line.append(&mut segs);
                assert(segs_view(line@) =~= lv + sv);
                push_line(out, line);
            }
        },
        BlockItem::Block(b) => {
            let mut head = owned("▸ ");
            head.append(b.kind.name.as_str());
            head.append(" ");
            let nl = name_label_text(&b.name, "(anon)");
            head.append(nl.as_str());
            let mut line: Vec<Segment> = Vec::new();
            push_seg(&mut line, owned(ind), Tone::Raw);
            push_seg(&mut line, head, Tone::BlockHeading);
            push_line(out, line);
            let ghost mid = lines_view(out@);
            let inner = deeper(ind);
            let kw = keys_width(&b.items);
            let mut k: usize = 0;
            while k < b.items.len()
                invariant
                    k <= b.items@.len(),
                    inner@ == repeat("  "@, d + 2),
                    kw == max_key(b.items@),
                    *it == BlockItem::Block(*b),
                    lines_view(out@) == mid + items_from(b.items@.subrange(0, k as int), d + 1, kw as nat),
                decreases b.items@.len() - k,
            {
                proof {
                    assert(b.items@.subrange(0, k as int + 1).drop_last() =~= b.items@.subrange(0, k as int));
                    assert(decreases_to!(*it => b.items@[k as int]));
                }
                push_item_lines(&b.items[k], inner.as_str(), Ghost(d + 1), kw, out);
                k = k + 1;
            }
            assert(b.items@.subrange(0, b.items@.len() as int) =~= b.items@);
        },
    }
    assert(lines_view(out@) =~~= start + item_lines(*it, d, mk as nat));
}

/// The detail panel's lines for a block.
pub fn block_lines(b: &BlockDecl) -> (r: Vec<Vec<Segment>>)
    ensures
        lines_view(r@) == spec_block_lines(*b),
{
    let mut out: Vec<Vec<Segment>> = Vec::new();
    let mut title = owned(b.kind.name.as_str());
    title.append(" ");
    let nl = name_label_text(&b.name, "<anon>");
    title.append(nl.as_str());
    push_line(&mut out, section_line(title.as_str()));
    let ghost mid = lines_view(out@);
    let ind = owned("  ");
    proof {
        reveal_with_fuel(repeat, 2);
    }
    assert(ind@ =~= repeat("  "@, 1)) by {
        reveal_with_fuel(repeat, 2);
    }
    let kw = keys_width(&b.items);
    let mut k: usize = 0;
    while k < b.items.len()
        invariant
            k <= b.items@.len(),
            ind@ == repeat("  "@, 1),
            kw == max_key(b.items@),
            lines_view(out@) == mid + items_from(b.items@.subrange(0, k as int), 0, kw as nat),
        decreases b.items@.len() - k,
    {
        assert(b.items@.subrange(0, k as int + 1).drop_last() =~= b.items@.subrange(0, k as int));
        push_item_lines(&b.items[k], ind.as_str(), Ghost(0), kw, &mut out);
        k = k + 1;
    }
    assert(b.items@.subrange(0, b.items@.len() as int) =~= b.items@);
    assert(lines_view(out@) =~~= spec_block_lines(*b));
    out
}

} // verus!
