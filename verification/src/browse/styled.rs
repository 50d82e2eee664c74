//! Styled text for the viewer's panels: a line is a list of segments, each
//! a piece of text with the tone it is drawn in. Field values are shown
//! inline when short and broken over lines (lists as bullets, maps as one
//! key per line) when long.

use vstd::prelude::*;

use crate::analysis::revisions::indent;
use crate::ast::{BlockDecl, BlockItem, BlockName, Field, FieldValue, MapEntry};
use crate::browse::rows::clamp_usize;
use crate::text::{i64_text, int_text, owned};

use vstd::string::StringSliceAdditionalSpecFns;

verus! {

/// How a piece of text is drawn.
#[derive(Clone, Copy, Debug, PartialEq, Eq, Structural)]
pub enum Tone {
    /// Punctuation and plain text.
    Raw,
    /// A bare identifier.
    Ident,
    /// `true` / `false`.
    Bool,
    /// An integer.
    Number,
    /// A quoted string.
    Text,
    /// The head of a type application.
    TypeHead,
    /// The head of a call.
    CallHead,
    /// The alias of a qualified reference.
    Alias,
    /// The dot of a qualified reference.
    Dot,
    /// The name of a qualified reference.
    QualifiedName,
    /// A field or map key.
    Key,
    /// A field key over a value broken onto the lines below it.
    KeyStrong,
    /// A section heading.
    Heading,
    /// The heading of a nested block.
    BlockHeading,
    /// Secondary text: bullets, placeholders.
    Muted,
    /// The selected node of the graph panel.
    NodeId,
    /// The kind of the selected node.
    NodeKind,
    /// The outgoing-edges heading.
    Outgoing,
    /// The incoming-edges heading.
    Incoming,
    /// The field an edge goes through.
    EdgeField,
    /// The target of an outgoing edge.
    EdgeTarget,
    /// The source of an incoming edge.
    EdgeSource,
    /// Error severity.
    Error,
    /// Error severity, emphasised.
    ErrorStrong,
    /// Warning severity.
    Warning,
    /// Warning severity, emphasised.
    WarningStrong,
    /// Info severity.
    Info,
    /// Info severity, emphasised.
    InfoStrong,
    /// A complete walk.
    Complete,
    /// Key help.
    Help,
}

/// A piece of text and its tone.
#[derive(Clone, Debug)]
pub struct Segment {
    pub text: String,
    pub tone: Tone,
}

pub type SegView = (Seq<char>, Tone);

pub open spec fn seg_view(s: Segment) -> SegView {
    (s.text@, s.tone)
}

pub open spec fn segs_view(v: Seq<Segment>) -> Seq<SegView> {
    v.map_values(|s: Segment| seg_view(s))
}

pub open spec fn lines_view(v: Seq<Vec<Segment>>) -> Seq<Seq<SegView>> {
    v.map_values(|l: Vec<Segment>| segs_view(l@))
}

pub fn push_seg(out: &mut Vec<Segment>, text: String, tone: Tone)
    ensures
        segs_view(final(out)@) == segs_view(old(out)@).push((text@, tone)),
{
    let ghost before = out@;
    out.push(Segment { text, tone });
    assert(segs_view(out@) =~= segs_view(before).push((text@, tone)));
}

pub fn push_line(out: &mut Vec<Vec<Segment>>, line: Vec<Segment>)
    ensures
        lines_view(final(out)@) == lines_view(old(out)@).push(segs_view(line@)),
{
    let ghost before = out@;
    let ghost lv = segs_view(line@);
    out.push(line);
    assert(lines_view(out@) =~= lines_view(before).push(lv));
}

pub fn append_lines(out: &mut Vec<Vec<Segment>>, more: Vec<Vec<Segment>>)
    ensures
        lines_view(final(out)@) == lines_view(old(out)@) + lines_view(more@),
{
    let ghost before = out@;
    let ghost mv = lines_view(more@);
    let mut more = more;
    out.append(&mut more);
    assert(lines_view(out@) =~= lines_view(before) + mv);
}

/// A line of one segment.
pub fn single_line(text: String, tone: Tone) -> (l: Vec<Segment>)
    ensures
        segs_view(l@) == seq![(text@, tone)],
{
    let mut l: Vec<Segment> = Vec::new();
    push_seg(&mut l, text, tone);
    assert(segs_view(l@) =~= seq![(text@, tone)]);
    l
}

/// `n` copies of `s`.
pub open spec fn repeat(s: Seq<char>, n: nat) -> Seq<char>
    decreases n,
{
    if n == 0 {
        seq![]
    } else {
        repeat(s, (n - 1) as nat) + s
    }
}

pub fn repeat_str(s: &str, n: usize) -> (r: String)
    ensures
        r@ == repeat(s@, n as nat),
{
    let mut r = String::new();
    let mut i: usize = 0;
    while i < n
        invariant
            i <= n,
            r@ == repeat(s@, i as nat),
        decreases n - i,
    {
        r.append(s);
        i = i + 1;
    }
    r
}

proof fn lemma_indent_is_repeat(n: nat)
    ensures
        indent(n) == repeat("  "@, n),
    decreases n,
{
    if n > 0 {
        lemma_indent_is_repeat((n - 1) as nat);
    }
}

/// The UTF-8 length of a text.
pub open spec fn blen(s: Seq<char>) -> nat {
    vstd::utf8::encode_utf8(s).len()
}

fn byte_len(s: &str) -> (n: usize)
    ensures
        n == blen(s@),
{
    s.as_bytes().len()
}

// ---------------------------------------------------------------------------
// Values inline
// ---------------------------------------------------------------------------

/// A value as styled segments: identifiers, booleans, numbers and strings
/// each in their tone; lists, maps, type applications and calls with their
/// punctuation; a qualified reference as alias, dot and name.
pub open spec fn value_segs(v: FieldValue) -> Seq<SegView>
    decreases v, 1int,
{
    match v {
        FieldValue::Ident(i) => seq![(i.name@, Tone::Ident)],
        FieldValue::Bool { value, .. } => seq![
            (if value {
                "true"@
            } else {
                "false"@
            }, Tone::Bool),
        ],
        FieldValue::Int { value, .. } => seq![(int_text(value as int), Tone::Number)],
        FieldValue::String { value, .. } => seq![("\""@ + value@ + "\""@, Tone::Text)],
        FieldValue::List { items, .. } => seq![("["@, Tone::Raw)] + join_segs(items@, ", "@) + seq![("]"@, Tone::Raw)],
        FieldValue::Mapping { entries, .. } => seq![("{ "@, Tone::Raw)] + entry_segs(entries@) + seq![
            (" }"@, Tone::Raw),
        ],
        FieldValue::TypeApp { head, params, alternation, .. } => seq![(head.name@, Tone::TypeHead), ("<"@, Tone::Raw)]
            + join_segs(
            params@,
            if alternation {
                " | "@
            } else {
                ", "@
            },
        ) + seq![(">"@, Tone::Raw)],
        FieldValue::Call { head, args, .. } => seq![(head.name@, Tone::CallHead), ("("@, Tone::Raw)] + join_segs(
            args@,
            ", "@,
        ) + seq![(")"@, Tone::Raw)],
        FieldValue::QualifiedIdent { alias, name, .. } => seq![
            (alias.name@, Tone::Alias),
            ("."@, Tone::Dot),
            (name.name@, Tone::QualifiedName),
        ],
    }
}

pub open spec fn join_segs(s: Seq<FieldValue>, sep: Seq<char>) -> Seq<SegView>
    decreases s, 0int,
{
    if s.len() == 0 {
        seq![]
    } else if s.len() == 1 {
        value_segs(s[0])
    } else {
        join_segs(s.drop_last(), sep) + seq![(sep, Tone::Raw)] + value_segs(s.last())
    }
}

pub open spec fn entry_segs(s: Seq<MapEntry>) -> Seq<SegView>
    decreases s, 0int,
{
    if s.len() == 0 {
        seq![]
    } else if s.len() == 1 {
        seq![(s[0].key.name@, Tone::Key), (": "@, Tone::Raw)] + value_segs(s[0].value)
    } else {
        entry_segs(s.drop_last()) + seq![(", "@, Tone::Raw), (s.last().key.name@, Tone::Key), (": "@, Tone::Raw)]
            + value_segs(s.last().value)
    }
}

fn append_segs(out: &mut Vec<Segment>, more: Vec<Segment>)
    ensures
        segs_view(final(out)@) == segs_view(old(out)@) + segs_view(more@),
{
    let ghost before = out@;
    let ghost mv = segs_view(more@);
    let mut more = more;
    out.append(&mut more);
    assert(segs_view(out@) =~= segs_view(before) + mv);
}

/// The styled segments of a value.
pub fn value_segments(value: &FieldValue) -> (r: Vec<Segment>)
    ensures
        segs_view(r@) == value_segs(*value),
    decreases value,
{
    let mut out: Vec<Segment> = Vec::new();
    match value {
        FieldValue::Ident(i) => {
            push_seg(&mut out, i.name.clone(), Tone::Ident);
        },
        FieldValue::Bool { value: b, .. } => {
            push_seg(
                &mut out,
                if *b {
                    owned("true")
                } else {
                    owned("false")
                },
                Tone::Bool,
            );
        },
        FieldValue::Int { value: n, .. } => {
            push_seg(&mut out, i64_text(*n), Tone::Number);
        },
        FieldValue::String { value: s, .. } => {
            let mut t = owned("\"");
            t.append(s.as_str());
            t.append("\"");
            push_seg(&mut out, t, Tone::Text);
        },
        FieldValue::List { items, .. } => {
            push_seg(&mut out, owned("["), Tone::Raw);
            let inner = join_segments(value, items, ", ");
            append_segs(&mut out, inner);
            push_seg(&mut out, owned("]"), Tone::Raw);
        },
        FieldValue::Mapping { entries, .. } => {
            push_seg(&mut out, owned("{ "), Tone::Raw);
            let ghost start = segs_view(out@);
            let mut k: usize = 0;
            while k < entries.len()
                invariant
                    k <= entries@.len(),
                    *value == (FieldValue::Mapping { span: value->Mapping_span, entries: *entries }),
                    segs_view(out@) == start + entry_segs(entries@.subrange(0, k as int)),
                decreases entries@.len() - k,
            {
                proof {
                    assert(entries@.subrange(0, k as int + 1).drop_last() =~= entries@.subrange(0, k as int));
                    assert(value->Mapping_entries == *entries);
                    assert(decreases_to!(*value => value->Mapping_entries));
                    assert(decreases_to!(*entries => entries@));
                    assert(decreases_to!(entries@ => entries@[k as int]));
                    assert(decreases_to!(entries@[k as int] => entries@[k as int].value));
                    if k == 0 {
                        assert(entries@.subrange(0, 1)[0] == entries@[0]);
                    }
                }
                if k > 0 {
                    push_seg(&mut out, owned(", "), Tone::Raw);
                }
                push_seg(&mut out, entries[k].key.name.clone(), Tone::Key);
                push_seg(&mut out, owned(": "), Tone::Raw);
                let v = value_segments(&entries[k].value);
                append_segs(&mut out, v);
                assert(segs_view(out@) =~= start + entry_segs(entries@.subrange(0, k as int + 1)));
                k = k + 1;
            }
            assert(entries@.subrange(0, entries@.len() as int) =~= entries@);
            push_seg(&mut out, owned(" }"), Tone::Raw);
        },
        FieldValue::TypeApp { head, params, alternation, .. } => {
            let sep: &str = if *alternation {
                " | "
            } else {
                ", "
            };
            push_seg(&mut out, head.name.clone(), Tone::TypeHead);
            push_seg(&mut out, owned("<"), Tone::Raw);
            let inner = join_segments(value, params, sep);
            append_segs(&mut out, inner);
            push_seg(&mut out, owned(">"), Tone::Raw);
        },
        FieldValue::Call { head, args, .. } => {
            push_seg(&mut out, head.name.clone(), Tone::CallHead);
            push_seg(&mut out, owned("("), Tone::Raw);
            let inner = join_segments(value, args, ", ");
            append_segs(&mut out, inner);
            push_seg(&mut out, owned(")"), Tone::Raw);
        },
        FieldValue::QualifiedIdent { alias, name, .. } => {
            push_seg(&mut out, alias.name.clone(), Tone::Alias);
            push_seg(&mut out, owned("."), Tone::Dot);
            push_seg(&mut out, name.name.clone(), Tone::QualifiedName);
        },
    }
    assert(segs_view(out@) =~= value_segs(*value));
    out
}

fn join_segments(parent: &FieldValue, vals: &Vec<FieldValue>, sep: &str) -> (r: Vec<Segment>)
    requires
        forall|k: int| 0 <= k < vals@.len() ==> decreases_to!(*parent => #[trigger] vals@[k]),
    ensures
        segs_view(r@) == join_segs(vals@, sep@),
    decreases parent, 0int,
{
    let mut out: Vec<Segment> = Vec::new();
    let mut k: usize = 0;
    while k < vals.len()
        invariant
            k <= vals@.len(),
            forall|q: int| 0 <= q < vals@.len() ==> decreases_to!(*parent => #[trigger] vals@[q]),
            segs_view(out@) == join_segs(vals@.subrange(0, k as int), sep@),
        decreases vals@.len() - k,
    {
        proof {
            assert(vals@.subrange(0, k as int + 1).drop_last() =~= vals@.subrange(0, k as int));
            assert(decreases_to!(*parent => vals@[k as int]));
            if k == 0 {
                assert(vals@.subrange(0, 1)[0] == vals@[0]);
            }
        }
        if k > 0 {
            push_seg(&mut out, owned(sep), Tone::Raw);
        }
        let v = value_segments(&vals[k]);
        append_segs(&mut out, v);
        assert(segs_view(out@) =~= join_segs(vals@.subrange(0, k as int + 1), sep@));
        k = k + 1;
    }
    assert(vals@.subrange(0, vals@.len() as int) =~= vals@);
    out
}

// ---------------------------------------------------------------------------
// Inline length and the multi-line decision
// ---------------------------------------------------------------------------

/// One less than `n`, and 0 for 0.
pub open spec fn less_one(n: nat) -> nat {
    if n == 0 {
        0
    } else {
        (n - 1) as nat
    }
}

/// The approximate width of a value shown inline, in bytes.
pub open spec fn inline_len(v: FieldValue) -> nat
    decreases v, 1int,
{
    match v {
        FieldValue::Ident(i) => blen(i.name@),
        FieldValue::Bool { value, .. } => if value {
            4
        } else {
            5
        },
        FieldValue::Int { value, .. } => blen(int_text(value as int)),
        FieldValue::String { value, .. } => blen(value@) + 2,
        FieldValue::List { items, .. } => 2 + sum_len(items@) + 2 * less_one(items@.len()),
        FieldValue::Mapping { entries, .. } => 4 + sum_entry_len(entries@) + 2 * less_one(entries@.len()),
        FieldValue::TypeApp { head, params, .. } => blen(head.name@) + 2 + sum_len(params@) + 3 * less_one(
            params@.len(),
        ),
        FieldValue::Call { head, args, .. } => blen(head.name@) + 2 + sum_len(args@) + 2 * less_one(args@.len()),
        FieldValue::QualifiedIdent { alias, name, .. } => blen(alias.name@) + 1 + blen(name.name@),
    }
}

pub open spec fn sum_len(s: Seq<FieldValue>) -> nat
    decreases s, 0int,
{
    if s.len() == 0 {
        0
    } else {
        sum_len(s.drop_last()) + inline_len(s.last())
    }
}

pub open spec fn sum_entry_len(s: Seq<MapEntry>) -> nat
    decreases s, 0int,
{
    if s.len() == 0 {
        0
    } else {
        sum_entry_len(s.drop_last()) + blen(s.last().key.name@) + 2 + inline_len(s.last().value)
    }
}

fn add_c(a: usize, b: usize) -> (r: usize)
    ensures
        r == clamp_usize((a + b) as nat),
{
    if a > usize::MAX - b {
        usize::MAX
    } else {
        a + b
    }
}

fn mul_c(k: usize, n: usize) -> (r: usize)
    requires
        k <= 3,
    ensures
        r == clamp_usize((k * n) as nat),
{
    if k == 0 {
        0
    } else if n > usize::MAX / k {
        assert(k * n > usize::MAX) by (nonlinear_arith)
            requires
                n > usize::MAX / k,
                k > 0,
        ;
        usize::MAX
    } else {
        assert(k * n <= usize::MAX) by (nonlinear_arith)
            requires
                n <= usize::MAX / k,
                k > 0,
        ;
        k * n
    }
}

proof fn lemma_clamp_add(a: nat, b: nat)
    ensures
        clamp_usize((clamp_usize(a) + clamp_usize(b)) as nat) == clamp_usize(a + b),
{
}

/// The inline width of a value, at most `usize::MAX`.
pub fn value_inline_len(value: &FieldValue) -> (n: usize)
    ensures
        n == clamp_usize(inline_len(*value)),
    decreases value,
{
    match value {
        FieldValue::Ident(i) => byte_len(i.name.as_str()),
        FieldValue::Bool { value: b, .. } => if *b {
            4
        } else {
            5
        },
        FieldValue::Int { value: v, .. } => {
            let t = i64_text(*v);
            byte_len(t.as_str())
        },
        FieldValue::String { value: s, .. } => add_c(byte_len(s.as_str()), 2),
        FieldValue::List { items, .. } => {
            let s = sum_values_len(value, items);
            let sep = mul_c(2, if items.len() == 0 {
                0
            } else {
                items.len() - 1
            });
            proof {
                lemma_clamp_add(2, sum_len(items@));
                lemma_clamp_add(2 + sum_len(items@), 2 * less_one(items@.len()));
            }
            add_c(add_c(2, s), sep)
        },
        FieldValue::Mapping { entries, .. } => {
            let mut total: usize = 0;
            let mut k: usize = 0;
            while k < entries.len()
                invariant
                    k <= entries@.len(),
                    *value == (FieldValue::Mapping { span: value->Mapping_span, entries: *entries }),
                    total == clamp_usize(sum_entry_len(entries@.subrange(0, k as int))),
                decreases entries@.len() - k,
            {
                proof {
                    assert(entries@.subrange(0, k as int + 1).drop_last() =~= entries@.subrange(0, k as int));
                    assert(value->Mapping_entries == *entries);
                    assert(decreases_to!(*value => value->Mapping_entries));
                    assert(decreases_to!(*entries => entries@));
                    assert(decreases_to!(entries@ => entries@[k as int]));
                    assert(decreases_to!(entries@[k as int] => entries@[k as int].value));
                }
                let kl = byte_len(entries[k].key.name.as_str());
                let vl = value_inline_len(&entries[k].value);
                proof {
                    let a = sum_entry_len(entries@.subrange(0, k as int));
                    let b = blen(entries@[k as int].key.name@);
                    let c = inline_len(entries@[k as int].value);
                    lemma_clamp_add(a, b);
                    lemma_clamp_add(a + b, 2);
                    lemma_clamp_add(a + b + 2, c);
                }
                total = add_c(add_c(add_c(total, kl), 2), vl);
                k = k + 1;
            }
            assert(entries@.subrange(0, entries@.len() as int) =~= entries@);
            let sep = mul_c(2, if entries.len() == 0 {
                0
            } else {
                entries.len() - 1
            });
            proof {
                lemma_clamp_add(4, sum_entry_len(entries@));
                lemma_clamp_add(4 + sum_entry_len(entries@), 2 * less_one(entries@.len()));
            }
            add_c(add_c(4, total), sep)
        },
        FieldValue::TypeApp { head, params, .. } => {
            let h = byte_len(head.name.as_str());
            let s = sum_values_len(value, params);
            let sep = mul_c(3, if params.len() == 0 {
                0
            } else {
                params.len() - 1
            });
            proof {
                lemma_clamp_add(blen(head.name@), 2);
                lemma_clamp_add(blen(head.name@) + 2, sum_len(params@));
                lemma_clamp_add(blen(head.name@) + 2 + sum_len(params@), 3 * less_one(params@.len()));
            }
            add_c(add_c(add_c(h, 2), s), sep)
        },
        FieldValue::Call { head, args, .. } => {
            let h = byte_len(head.name.as_str());
            let s = sum_values_len(value, args);
            let sep = mul_c(2, if args.len() == 0 {
                0
            } else {
                args.len() - 1
            });
            proof {
                lemma_clamp_add(blen(head.name@), 2);
                lemma_clamp_add(blen(head.name@) + 2, sum_len(args@));
                lemma_clamp_add(blen(head.name@) + 2 + sum_len(args@), 2 * less_one(args@.len()));
            }
            add_c(add_c(add_c(h, 2), s), sep)
        },
        FieldValue::QualifiedIdent { alias, name, .. } => {
            let a = byte_len(alias.name.as_str());
            let b = byte_len(name.name.as_str());
            proof {
                lemma_clamp_add(blen(alias.name@), 1);
                lemma_clamp_add(blen(alias.name@) + 1, blen(name.name@));
            }
            add_c(add_c(a, 1), b)
        },
    }
}

fn sum_values_len(parent: &FieldValue, vals: &Vec<FieldValue>) -> (n: usize)
    requires
        forall|k: int| 0 <= k < vals@.len() ==> decreases_to!(*parent => #[trigger] vals@[k]),
    ensures
        n == clamp_usize(sum_len(vals@)),
    decreases parent, 0int,
{
    let mut total: usize = 0;
    let mut k: usize = 0;
    while k < vals.len()
        invariant
            k <= vals@.len(),
            forall|q: int| 0 <= q < vals@.len() ==> decreases_to!(*parent => #[trigger] vals@[q]),
            total == clamp_usize(sum_len(vals@.subrange(0, k as int))),
        decreases vals@.len() - k,
    {
        proof {
            assert(vals@.subrange(0, k as int + 1).drop_last() =~= vals@.subrange(0, k as int));
            assert(decreases_to!(*parent => vals@[k as int]));
            lemma_clamp_add(sum_len(vals@.subrange(0, k as int)), inline_len(vals@[k as int]));
        }
        let v = value_inline_len(&vals[k]);
        total = add_c(total, v);
        k = k + 1;
    }
    assert(vals@.subrange(0, vals@.len() as int) =~= vals@);
    total
}

/// The inline width above which a value breaks onto lines of its own.
pub const INLINE_VALUE_THRESHOLD: usize = 50;

/// A value breaks onto lines of its own: a list of more than three items
/// or wider than the threshold, a non-empty map wider than the threshold,
/// a string wider than the threshold; never anything else.
pub open spec fn spec_goes_multiline(v: FieldValue, width: nat) -> bool {
    match v {
        FieldValue::List { items, .. } => items@.len() > 3 || width > INLINE_VALUE_THRESHOLD,
        FieldValue::Mapping { entries, .. } => entries@.len() > 0 && width > INLINE_VALUE_THRESHOLD,
        FieldValue::String { .. } => width > INLINE_VALUE_THRESHOLD,
        _ => false,
    }
}

pub fn should_go_multiline(value: &FieldValue, inline_len: usize) -> (r: bool)
    ensures
        r == spec_goes_multiline(*value, inline_len as nat),
{
    match value {
        FieldValue::List { items, .. } => items.len() > 3 || inline_len > INLINE_VALUE_THRESHOLD,
        FieldValue::Mapping { entries, .. } => entries.len() > 0 && inline_len > INLINE_VALUE_THRESHOLD,
        FieldValue::String { .. } => inline_len > INLINE_VALUE_THRESHOLD,
        _ => false,
    }
}

/// The value, measured inline, breaks onto lines of its own.
pub open spec fn multi(v: FieldValue) -> bool {
    spec_goes_multiline(v, clamp_usize(inline_len(v)) as nat)
}

} // verus!
