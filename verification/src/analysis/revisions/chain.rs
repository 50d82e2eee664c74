//! Parsing a slice's inline `revisions` block and validating its chain.

use vstd::prelude::*;

use crate::analysis::nav::{field_value, kind_is, spec_field_value};
use crate::analysis::revisions::replay::{block_name_display, replay_revisions, reorder_targets_walk_path};
use crate::analysis::revisions::{
    BlockPathSegment, InlineRevision, InlineRevisionChain, PATCH_FORMAT_VERSION, RevisionSummary, SemanticPatchOp,
    canonical_source_projection, source_sha256, spec_canonical_projection, spec_source_sha256,
    spec_value_to_string, value_to_string,
};
use crate::ast::{BlockDecl, BlockItem, BlockName, FieldValue, File, MapEntry};
use crate::diagnostic::codes;
use crate::diagnostic::{DiagView, Diagnostic, Severity, dv, dvs, hinted, plain};
use crate::span::Span;
use crate::text::{cat, cat3, cat4, decimal_text, i64_text, int_text, is_lit, owned, str_eq, u64_text};

verus! {

// ---------------------------------------------------------------------------
// The revisions block
// ---------------------------------------------------------------------------

/// A `revisions` block item.
pub open spec fn is_revisions_block_item(it: BlockItem) -> bool {
    it is Block && it->Block_0.kind.name@ == "revisions"@
}

/// The `revisions` blocks among `items`, in order.
pub open spec fn revisions_blocks(items: Seq<BlockItem>) -> Seq<BlockDecl>
    decreases items.len(),
{
    if items.len() == 0 {
        seq![]
    } else {
        revisions_blocks(items.drop_last()) + if is_revisions_block_item(items.last()) {
            seq![items.last()->Block_0]
        } else {
            seq![]
        }
    }
}

/// The positive integer name of a `revision N` block.
pub open spec fn revision_number_of(it: BlockItem) -> Option<i64> {
    match it {
        BlockItem::Block(b) => if b.kind.name@ == "revision"@ {
            match b.name {
                Some(BlockName::Int { value, .. }) => if value > 0 {
                    Some(value)
                } else {
                    None
                },
                _ => None,
            }
        } else {
            None
        },
        _ => None,
    }
}

/// The `revision N` blocks (N positive) among `items`, in order.
pub open spec fn numbered_revisions(items: Seq<BlockItem>) -> Seq<BlockDecl>
    decreases items.len(),
{
    if items.len() == 0 {
        seq![]
    } else {
        numbered_revisions(items.drop_last()) + if revision_number_of(items.last()) is Some {
            seq![items.last()->Block_0]
        } else {
            seq![]
        }
    }
}

/// A field value read as a string: a string's text, an identifier's name,
/// an integer's decimal text.
pub open spec fn spec_string_like(v: FieldValue) -> Option<Seq<char>> {
    match v {
        FieldValue::String { value, .. } => Some(value@),
        FieldValue::Ident(i) => Some(i.name@),
        FieldValue::Int { value, .. } => Some(int_text(value as int)),
        _ => None,
    }
}

/// `base_hash:` read as `null` (none) or a string.
pub open spec fn spec_base_hash(b: BlockDecl) -> Option<Seq<char>> {
    match spec_field_value(b, "base_hash"@) {
        Some(FieldValue::String { value, .. }) => Some(value@),
        _ => None,
    }
}

/// What a `revision N` block says, apart from its ops.
pub open spec fn revision_matches(r: InlineRevision, b: BlockDecl) -> bool {
    let n = match b.name {
        Some(BlockName::Int { value, .. }) => value,
        _ => 0,
    };
    &&& r.span == b.span
    &&& r.summary.revision_number == n
    &&& r.summary.base_revision == if n > 1 {
        Some((n - 1) as u64)
    } else {
        None
    }
    &&& (match r.summary.base_hash {
        Some(h) => Some(h@),
        None => None,
    }) == spec_base_hash(b)
    &&& r.summary.result_hash@ == match spec_field_value(b, "result_hash"@) {
        Some(v) => match spec_string_like(v) {
            Some(s) => s,
            None => "sha256:<invalid>"@,
        },
        None => "sha256:<invalid>"@,
    }
    &&& r.summary.reason@ == match spec_field_value(b, "reason"@) {
        Some(v) => match spec_string_like(v) {
            Some(s) => s,
            None => seq![],
        },
        None => seq![],
    }
    &&& (match r.summary.author {
        Some(a) => Some(a@),
        None => None,
    }) == match spec_field_value(b, "author"@) {
        Some(v) => spec_string_like(v),
        None => None,
    }
    &&& r.summary.patch_format_version@ == PATCH_FORMAT_VERSION@
}

/// A diagnostic of the revision checks.
pub open spec fn is_revision_code(c: &str) -> bool {
    c == codes::E_REV_REPLAY_FAILED || c == codes::E_REV_NUMBER_GAP || c == codes::E_REV_UNKNOWN_OP
}

// ---------------------------------------------------------------------------
// Field readers
// ---------------------------------------------------------------------------

fn string_like(v: &FieldValue, out: &mut Vec<Diagnostic>) -> (r: Option<String>)
    ensures
        match r {
            Some(s) => spec_string_like(*v) == Some(s@),
            None => spec_string_like(*v) is None,
        },
        final(out)@.len() >= old(out)@.len(),
        final(out)@.subrange(0, old(out)@.len() as int) == old(out)@,
        forall|k: int| old(out)@.len() <= k < final(out)@.len() ==> (#[trigger] final(out)@[k]).severity == Severity::Error
            && is_revision_code(final(out)@[k].code),
{
    match v {
        FieldValue::String { value, .. } => Some(owned(value.as_str())),
        FieldValue::Ident(i) => Some(owned(i.name.as_str())),
        FieldValue::Int { value, .. } => Some(i64_text(*value)),
        _ => {
            out.push(
                Diagnostic::error(codes::E_REV_REPLAY_FAILED, v.span(), owned("expected string-like revision field value")),
            );
            None
        },
    }
}

/// What the list/map readers keep true of a diagnostics list: earlier
/// entries stay, new ones are revision errors.
pub open spec fn grew_by_revision_errors(old: Seq<Diagnostic>, new: Seq<Diagnostic>) -> bool {
    &&& new.len() >= old.len()
    &&& new.subrange(0, old.len() as int) == old
    &&& forall|k: int| old.len() <= k < new.len() ==> (#[trigger] new[k]).severity == Severity::Error && is_revision_code(
        new[k].code,
    )
}

proof fn lemma_grew_refl(a: Seq<Diagnostic>)
    ensures
        grew_by_revision_errors(a, a),
{
    assert(a.subrange(0, a.len() as int) =~= a);
}

proof fn lemma_grew_trans(a: Seq<Diagnostic>, b: Seq<Diagnostic>, c: Seq<Diagnostic>)
    requires
        grew_by_revision_errors(a, b),
        grew_by_revision_errors(b, c),
    ensures
        grew_by_revision_errors(a, c),
{
    assert(c.subrange(0, a.len() as int) =~= b.subrange(0, a.len() as int));
    assert forall|k: int| a.len() <= k < c.len() implies (#[trigger] c[k]).severity == Severity::Error && is_revision_code(
        c[k].code,
    ) by {
        if k < b.len() {
            assert(c[k] == b[k]);
        }
    }
}

fn required_field<'a>(b: &'a BlockDecl, key: &str, out: &mut Vec<Diagnostic>) -> (r: Option<&'a FieldValue>)
    ensures
        match r {
            Some(v) => spec_field_value(*b, key@) == Some(*v),
            None => spec_field_value(*b, key@) is None,
        },
        grew_by_revision_errors(old(out)@, final(out)@),
{
    let v = field_value(b, key);
    if v.is_none() {
        let n = block_name_display(b);
        let mut m = cat3("revision ", n.as_str(), " is missing required field `");
        m.append(key);
        m.append(":`");
        out.push(Diagnostic::error(codes::E_REV_REPLAY_FAILED, b.span, m));
    }
    proof {
        assert(out@.subrange(0, old(out)@.len() as int) =~= old(out)@);
    }
    v
}

/// The first entry of `entries` keyed `key`.
pub open spec fn first_entry(entries: Seq<MapEntry>, key: Seq<char>) -> Option<MapEntry>
    decreases entries.len(),
{
    if entries.len() == 0 {
        None
    } else {
        match first_entry(entries.drop_last(), key) {
            Some(e) => Some(e),
            None => if entries.last().key.name@ == key {
                Some(entries.last())
            } else {
                None
            },
        }
    }
}

fn find_entry<'a>(entries: &'a Vec<MapEntry>, key: &str) -> (r: Option<&'a MapEntry>)
    ensures
        match r {
            Some(e) => first_entry(entries@, key@) == Some(*e),
            None => first_entry(entries@, key@) is None,
        },
{
    let mut i: usize = 0;
    assert(entries@.take(0) =~= Seq::<MapEntry>::empty());
    while i < entries.len()
        invariant
            i <= entries@.len(),
            first_entry(entries@.take(i as int), key@) is None,
        decreases entries@.len() - i,
    {
        let ghost t = entries@.take(i + 1);
        assert(t.drop_last() =~= entries@.take(i as int));
        if is_lit(&entries[i].key.name, key) {
            proof {
                lemma_first_entry_prefix(entries@, key@, i + 1);
            }
            return Some(&entries[i]);
        }
        i = i + 1;
    }
    assert(entries@.take(i as int) =~= entries@);
    None
}

/// A prefix that already holds the key decides the first entry.
proof fn lemma_first_entry_prefix(entries: Seq<MapEntry>, key: Seq<char>, n: int)
    requires
        0 <= n <= entries.len(),
        first_entry(entries.take(n), key) is Some,
    ensures
        first_entry(entries, key) == first_entry(entries.take(n), key),
    decreases entries.len() - n,
{
    if n < entries.len() {
        let t = entries.take(n + 1);
        assert(t.drop_last() =~= entries.take(n));
        lemma_first_entry_prefix(entries, key, n + 1);
    } else {
        assert(entries.take(n) =~= entries);
    }
}

/// The text a scalar op-map value stands for.
pub open spec fn scalar_text(v: FieldValue) -> Seq<char> {
    match v {
        FieldValue::String { value, .. } => value@,
        FieldValue::Ident(i) => i.name@,
        FieldValue::Int { value, .. } => int_text(value as int),
        FieldValue::Bool { value, .. } => if value {
            "true"@
        } else {
            "false"@
        },
        _ => spec_value_to_string(v),
    }
}

fn value_to_scalar_string(v: &FieldValue) -> (r: String)
    ensures
        r@ == scalar_text(*v),
{
    match v {
        FieldValue::String { value, .. } => owned(value.as_str()),
        FieldValue::Ident(i) => owned(i.name.as_str()),
        FieldValue::Int { value, .. } => i64_text(*value),
        FieldValue::Bool { value, .. } => if *value {
            owned("true")
        } else {
            owned("false")
        },
        _ => value_to_string(v),
    }
}

/// The text of the entry keyed `key`, if any.
pub open spec fn map_text(entries: Seq<MapEntry>, key: Seq<char>) -> Option<Seq<char>> {
    match first_entry(entries, key) {
        Some(e) => Some(scalar_text(e.value)),
        None => None,
    }
}

fn map_string(entries: &Vec<MapEntry>, key: &str) -> (r: Option<String>)
    ensures
        match r {
            Some(t) => map_text(entries@, key@) == Some(t@),
            None => map_text(entries@, key@) is None,
        },
{
    match find_entry(entries, key) {
        Some(e) => Some(value_to_scalar_string(&e.value)),
        None => None,
    }
}

fn map_string_or_empty(entries: &Vec<MapEntry>, key: &str) -> (r: String)
    ensures
        r@ == match map_text(entries@, key@) {
            Some(t) => t,
            None => seq![],
        },
{
    match map_string(entries, key) {
        Some(s) => s,
        None => String::new(),
    }
}

/// The decimal value of a run of digits.
pub open spec fn digits_value(d: Seq<char>) -> int
    decreases d.len(),
{
    if d.len() == 0 {
        0
    } else {
        digits_value(d.drop_last()) * 10 + (d.last() as int - '0' as int)
    }
}

/// Every character of `d` is an ASCII digit.
pub open spec fn all_digits(d: Seq<char>) -> bool {
    forall|i: int| 0 <= i < d.len() ==> '0' <= #[trigger] d[i] <= '9'
}

/// `s` read as an optionally signed decimal integer that fits in `i64`.
pub open spec fn spec_parse_i64(s: Seq<char>) -> Option<int> {
    let signed = s.len() > 0 && (s[0] == '-' || s[0] == '+');
    let body = if signed {
        s.subrange(1, s.len() as int)
    } else {
        s
    };
    let v = if signed && s[0] == '-' {
        -digits_value(body)
    } else {
        digits_value(body)
    };
    if body.len() == 0 || !all_digits(body) || v < i64::MIN || v > i64::MAX {
        None
    } else {
        Some(v)
    }
}

proof fn lemma_digits_grow(d: Seq<char>, j: int)
    requires
        0 <= j <= d.len(),
        all_digits(d),
    ensures
        0 <= digits_value(d.take(j)) <= digits_value(d),
    decreases d.len() - j,
{
    if j < d.len() {
        lemma_digits_grow(d, j + 1);
        let t = d.take(j + 1);
        assert(t.drop_last() =~= d.take(j));
        assert(t.last() == d[j]);
    } else {
        assert(d.take(j) =~= d);
        lemma_digits_nonneg(d);
    }
}

proof fn lemma_digits_nonneg(d: Seq<char>)
    requires
        all_digits(d),
    ensures
        digits_value(d) >= 0,
    decreases d.len(),
{
    if d.len() > 0 {
        assert(all_digits(d.drop_last())) by {
            assert forall|i: int| 0 <= i < d.drop_last().len() implies '0' <= #[trigger] d.drop_last()[i] <= '9' by {
                assert(d.drop_last()[i] == d[i]);
            }
        }
        lemma_digits_nonneg(d.drop_last());
        assert('0' <= d[d.len() - 1] <= '9');
    }
}

/// A decimal integer, optionally signed, that fits in `i64`.
fn parse_i64(s: &str) -> (r: Option<i64>)
    ensures
        match r {
            Some(v) => spec_parse_i64(s@) == Some(v as int),
            None => spec_parse_i64(s@) is None,
        },
{
    let cs = crate::text::chars_of(s);
    let n = cs.len();
    if n == 0 {
        return None;
    }
    let mut i: usize = 0;
    let mut neg = false;
    if cs[0] == '-' || cs[0] == '+' {
        neg = cs[0] == '-';
        i = 1;
        if n == 1 {
            proof {
                assert(s@.subrange(1, 1).len() == 0);
            }
            return None;
        }
    }
    let start = i;
    let ghost body = s@.subrange(start as int, n as int);
    proof {
        let signed = s@.len() > 0 && (s@[0] == '-' || s@[0] == '+');
        assert(signed == (start == 1));
        assert(neg == (signed && s@[0] == '-'));
        if start == 0 {
            assert(body =~= s@);
        }
        assert(body.take(0) =~= Seq::<char>::empty());
    }
    // Accumulate the negative value so that i64::MIN parses.
    let mut acc: i64 = 0;
    while i < n
        invariant
            start <= i <= n == cs@.len(),
            cs@ == s@,
            body == s@.subrange(start as int, n as int),
            (start == 1) == (s@.len() > 0 && (s@[0] == '-' || s@[0] == '+')),
            start == 0 ==> body == s@,
            start <= 1,
            neg == (start == 1 && s@[0] == '-'),
            acc as int == -digits_value(body.take(i - start)),
            all_digits(body.take(i - start)),
        decreases n - i,
    {
        let c = cs[i];
        let ghost t = body.take(i - start + 1);
        proof {
            assert(t.drop_last() =~= body.take(i - start));
            assert(t.last() == c);
        }
        if !('0' <= c && c <= '9') {
            proof {
                assert(body[i - start] == s@[i as int]);
                assert(body[i - start] == c);
                assert(!all_digits(body));
                assert(spec_parse_i64(s@) is None);
            }
            return None;
        }
        proof {
            assert forall|k: int| 0 <= k < t.len() implies '0' <= #[trigger] t[k] <= '9' by {
                if k < t.len() - 1 {
                    assert(t[k] == body.take(i - start)[k]);
                }
            }
        }
        let d = (c as u32 - '0' as u32) as i64;
        match acc.checked_mul(10) {
            Some(m) => match m.checked_sub(d) {
                Some(x) => {
                    acc = x;
                },
                None => {
                    proof {
                        assert(t.last() as int - '0' as int == d);
                        assert(digits_value(t) == digits_value(body.take(i - start)) * 10 + d);
                        lemma_parse_overflow(body, i - start + 1);
                        assert(spec_parse_i64(s@) is None);
                    }
                    return None;
                },
            },
            None => {
                proof {
                    lemma_digits_nonneg(body.take(i - start));
                    lemma_parse_overflow(body, i - start + 1);
                }
                return None;
            },
        }
        i = i + 1;
    }
    proof {
        assert(body.take(n - start) =~= body);
    }
    if neg {
        Some(acc)
    } else if acc == i64::MIN {
        None
    } else {
        Some(-acc)
    }
}

/// Once a prefix of the digits overflows `i64`, the whole does.
proof fn lemma_parse_overflow(body: Seq<char>, j: int)
    requires
        0 < j <= body.len(),
        all_digits(body.take(j)),
        digits_value(body.take(j)) > 0x8000_0000_0000_0000,
    ensures
        !all_digits(body) || digits_value(body) > 0x8000_0000_0000_0000,
{
    if all_digits(body) {
        lemma_digits_grow(body, j);
    }
}

/// The integer of the entry keyed `key`: an integer value, or a string
/// that reads as one.
pub open spec fn map_int(entries: Seq<MapEntry>, key: Seq<char>) -> Option<int> {
    match first_entry(entries, key) {
        Some(e) => match e.value {
            FieldValue::Int { value, .. } => Some(value as int),
            FieldValue::String { value, .. } => spec_parse_i64(value@),
            _ => None,
        },
        None => None,
    }
}

fn map_i64(entries: &Vec<MapEntry>, key: &str) -> (r: Option<i64>)
    ensures
        match r {
            Some(v) => map_int(entries@, key@) == Some(v as int),
            None => map_int(entries@, key@) is None,
        },
{
    match find_entry(entries, key) {
        Some(e) => match &e.value {
            FieldValue::Int { value, .. } => Some(*value),
            FieldValue::String { value, .. } => parse_i64(value.as_str()),
            _ => None,
        },
        None => None,
    }
}

fn map_usize(entries: &Vec<MapEntry>, key: &str) -> (r: usize) {
    match map_i64(entries, key) {
        Some(v) => {
            if v >= 0 && (v as u64) <= (usize::MAX as u64) {
                v as usize
            } else {
                0
            }
        },
        None => 0,
    }
}

/// The items of the list value keyed `key` (none when it is not a list).
pub open spec fn map_list(entries: Seq<MapEntry>, key: Seq<char>) -> Seq<FieldValue> {
    match first_entry(entries, key) {
        Some(e) => match e.value {
            FieldValue::List { items, .. } => items@,
            _ => seq![],
        },
        None => seq![],
    }
}

fn map_string_list(entries: &Vec<MapEntry>, key: &str) -> (r: Vec<String>)
    ensures
        r@.len() == map_list(entries@, key@).len(),
        forall|i: int| 0 <= i < r@.len() ==> (#[trigger] r@[i])@ == scalar_text(map_list(entries@, key@)[i]),
{
    let mut out: Vec<String> = Vec::new();
    match find_entry(entries, key) {
        Some(e) => match &e.value {
            FieldValue::List { items, .. } => {
                let mut i: usize = 0;
                while i < items.len()
                    invariant
                        i <= items@.len(),
                        items@ == map_list(entries@, key@),
                        out@.len() == i,
                        forall|k: int| 0 <= k < i ==> (#[trigger] out@[k])@ == scalar_text(items@[k]),
                    decreases items@.len() - i,
                {
                    out.push(value_to_scalar_string(&items[i]));
                    i = i + 1;
                }
            },
            _ => {},
        },
        None => {},
    }
    out
}

/// `i` is the position of the first `:` of `s`.
pub open spec fn first_colon(s: Seq<char>, i: int) -> bool {
    0 <= i < s.len() && s[i] == ':' && forall|j: int| 0 <= j < i ==> #[trigger] s[j] != ':'
}

/// `kind:name` split at the first `:`; all of it the kind when there is
/// none.
pub open spec fn split_kind_name(s: Seq<char>) -> (Seq<char>, Seq<char>) {
    if exists|i: int| first_colon(s, i) {
        let i = choose|i: int| first_colon(s, i);
        (s.subrange(0, i), s.subrange(i + 1, s.len() as int))
    } else {
        (s, seq![])
    }
}

/// A path segment as its kind and name.
pub open spec fn seg_view(g: BlockPathSegment) -> (Seq<char>, Seq<char>) {
    (g.kind@, g.name@)
}

/// `kind:name` split at the first `:` (all of it the kind when there is
/// none).
fn split_segment(s: &str) -> (r: BlockPathSegment)
    ensures
        seg_view(r) == split_kind_name(s@),
{
    let cs = crate::text::chars_of(s);
    let mut i: usize = 0;
    while i < cs.len()
        invariant
            i <= cs@.len(),
            cs@ == s@,
            forall|j: int| 0 <= j < i ==> #[trigger] s@[j] != ':',
        decreases cs@.len() - i,
    {
        if cs[i] == ':' {
            proof {
                assert(first_colon(s@, i as int));
                let k = choose|k: int| first_colon(s@, k);
                if k < i {
                    assert(s@[k] != ':');
                } else if k > i {
                    assert(s@[i as int] != ':');
                }
            }
            return BlockPathSegment {
                kind: crate::text::string_of(&cs, 0, i),
                name: crate::text::string_of(&cs, i + 1, cs.len()),
            };
        }
        i = i + 1;
    }
    proof {
        assert(!exists|k: int| first_colon(s@, k));
    }
    BlockPathSegment { kind: owned(s), name: String::new() }
}

/// The path segment a `block_path` item names, if it names one.
pub open spec fn path_seg(v: FieldValue) -> Option<(Seq<char>, Seq<char>)> {
    match v {
        FieldValue::Mapping { entries, .. } => Some(
            (
                match map_text(entries@, "kind"@) {
                    Some(t) => t,
                    None => seq![],
                },
                match map_text(entries@, "name"@) {
                    Some(t) => t,
                    None => seq![],
                },
            ),
        ),
        FieldValue::String { value, .. } => Some(split_kind_name(value@)),
        FieldValue::Ident(i) => Some((i.name@, seq![])),
        _ => None,
    }
}

fn value_to_path_segment(v: &FieldValue) -> (r: Option<BlockPathSegment>)
    ensures
        match r {
            Some(g) => path_seg(*v) == Some(seg_view(g)),
            None => path_seg(*v) is None,
        },
{
    match v {
        FieldValue::Mapping { entries, .. } => Some(
            BlockPathSegment { kind: map_string_or_empty(entries, "kind"), name: map_string_or_empty(entries, "name") },
        ),
        FieldValue::String { value, .. } => Some(split_segment(value.as_str())),
        FieldValue::Ident(i) => Some(BlockPathSegment { kind: owned(i.name.as_str()), name: String::new() }),
        _ => None,
    }
}

/// The path segments the items name, in order.
pub open spec fn path_segs(items: Seq<FieldValue>) -> Seq<(Seq<char>, Seq<char>)>
    decreases items.len(),
{
    if items.len() == 0 {
        seq![]
    } else {
        path_segs(items.drop_last()) + match path_seg(items.last()) {
            Some(g) => seq![g],
            None => seq![],
        }
    }
}

fn map_block_path(entries: &Vec<MapEntry>, key: &str) -> (r: Vec<BlockPathSegment>)
    ensures
        r@.map_values(|g: BlockPathSegment| seg_view(g)) == path_segs(map_list(entries@, key@)),
{
    let mut out: Vec<BlockPathSegment> = Vec::new();
    match find_entry(entries, key) {
        Some(e) => match &e.value {
            FieldValue::List { items, .. } => {
                let mut i: usize = 0;
                assert(items@.take(0) =~= Seq::<FieldValue>::empty());
                assert(out@.map_values(|g: BlockPathSegment| seg_view(g)) =~= Seq::<(Seq<char>, Seq<char>)>::empty());
                while i < items.len()
                    invariant
                        i <= items@.len(),
                        items@ == map_list(entries@, key@),
                        out@.map_values(|g: BlockPathSegment| seg_view(g)) == path_segs(items@.take(i as int)),
                    decreases items@.len() - i,
                {
                    let ghost o = out@;
                    let ghost t = items@.take(i + 1);
                    assert(t.drop_last() =~= items@.take(i as int));
                    assert(t.last() == items@[i as int]);
                    match value_to_path_segment(&items[i]) {
                        Some(s) => {
                            out.push(s);
                            assert(out@.map_values(|g: BlockPathSegment| seg_view(g)) =~= o.map_values(
                                |g: BlockPathSegment| seg_view(g),
                            ).push(seg_view(s)));
                        },
                        None => {},
                    }
                    i = i + 1;
                }
                assert(items@.take(i as int) =~= items@);
            },
            _ => {
                assert(out@.map_values(|g: BlockPathSegment| seg_view(g)) =~= Seq::<(Seq<char>, Seq<char>)>::empty());
            },
        },
        None => {
            assert(out@.map_values(|g: BlockPathSegment| seg_view(g)) =~= Seq::<(Seq<char>, Seq<char>)>::empty());
        },
    }
    out
}

// ---------------------------------------------------------------------------
// Ops
// ---------------------------------------------------------------------------

fn parse_op(entries: &Vec<MapEntry>, span: Span, out: &mut Vec<Diagnostic>) -> (r: Option<SemanticPatchOp>)
    ensures
        grew_by_revision_errors(old(out)@, final(out)@),
{
    proof {
        assert(out@.subrange(0, out@.len() as int) =~= out@);
    }
    let tag = match map_string(entries, "op") {
        Some(t) => t,
        None => {
            out.push(
                Diagnostic::error(codes::E_REV_UNKNOWN_OP, span, owned("revision op is missing `op:`")).with_hint(
                    owned("every semantic patch op must be explicitly tagged"),
                ),
            );
            proof {
                assert(out@.subrange(0, old(out)@.len() as int) =~= old(out)@);
            }
            return None;
        },
    };
    let t = tag.as_str();
    if str_eq(t, "genesis_from_materialized_view") {
        Some(
            SemanticPatchOp::GenesisFromMaterializedView {
                source_hash: map_string_or_empty(entries, "source_hash"),
                byte_len: map_usize(entries, "byte_len"),
                line_count: map_usize(entries, "line_count"),
            },
        )
    } else if str_eq(t, "add_slice") {
        Some(SemanticPatchOp::AddSlice { id: map_string_or_empty(entries, "id"), span: Span::dummy() })
    } else if str_eq(t, "add_import") {
        Some(
            SemanticPatchOp::AddImport {
                alias: map_string_or_empty(entries, "alias"),
                path: map_string_or_empty(entries, "path"),
                span: Span::dummy(),
            },
        )
    } else if str_eq(t, "add_walk") {
        let walk = match map_i64(entries, "walk") {
            Some(w) => w,
            None => 0,
        };
        Some(SemanticPatchOp::AddWalk { walk, span: Span::dummy() })
    } else if str_eq(t, "add_declaration") {
        Some(
            SemanticPatchOp::AddDeclaration {
                kind: map_string_or_empty(entries, "kind"),
                id: map_string_or_empty(entries, "id"),
                span: Span::dummy(),
            },
        )
    } else if str_eq(t, "add_step") {
        Some(
            SemanticPatchOp::AddStep {
                event: map_string_or_empty(entries, "event"),
                id: map_string_or_empty(entries, "id"),
                span: Span::dummy(),
            },
        )
    } else if str_eq(t, "add_block") {
        Some(
            SemanticPatchOp::AddBlock {
                kind: map_string_or_empty(entries, "kind"),
                name: map_string_or_empty(entries, "name"),
                items: map_string_list(entries, "items"),
            },
        )
    } else if str_eq(t, "remove_block") {
        Some(
            SemanticPatchOp::RemoveBlock {
                kind: map_string_or_empty(entries, "kind"),
                name: map_string_or_empty(entries, "name"),
            },
        )
    } else if str_eq(t, "modify_field") {
        Some(
            SemanticPatchOp::ModifyField {
                block_path: map_block_path(entries, "block_path"),
                field_name: map_string_or_empty(entries, "field_name"),
                value: map_string_or_empty(entries, "value"),
            },
        )
    } else if str_eq(t, "remove_field") {
        Some(
            SemanticPatchOp::RemoveField {
                block_path: map_block_path(entries, "block_path"),
                field_name: map_string_or_empty(entries, "field_name"),
            },
        )
    } else if str_eq(t, "reorder_items") {
        Some(
            SemanticPatchOp::ReorderItems {
                block_path: map_block_path(entries, "block_path"),
                new_order: map_string_list(entries, "new_order"),
            },
        )
    } else {
        out.push(
            Diagnostic::error(codes::E_REV_UNKNOWN_OP, span, cat3("unknown revision op `", t, "`")).with_hint(
                owned("bump the patch format before introducing new op tags"),
            ),
        );
        proof {
            assert(out@.subrange(0, old(out)@.len() as int) =~= old(out)@);
        }
        None
    }
}

fn parse_ops(items: &Vec<FieldValue>, out: &mut Vec<Diagnostic>) -> (r: Vec<SemanticPatchOp>)
    ensures
        grew_by_revision_errors(old(out)@, final(out)@),
{
    let mut ops: Vec<SemanticPatchOp> = Vec::new();
    let ghost o0 = out@;
    proof {
        assert(out@.subrange(0, out@.len() as int) =~= out@);
    }
    let mut i: usize = 0;
    while i < items.len()
        invariant
            i <= items@.len(),
            grew_by_revision_errors(o0, out@),
        decreases items@.len() - i,
    {
        let ghost before = out@;
        match &items[i] {
            FieldValue::Mapping { entries, .. } => {
                match parse_op(entries, items[i].span(), out) {
                    Some(op) => ops.push(op),
                    None => {},
                }
            },
            _ => {
                out.push(
                    Diagnostic::error(codes::E_REV_REPLAY_FAILED, items[i].span(), owned("revision op must be a map")).with_hint(
                        owned("write `{ op: \"add_block\", ... }`"),
                    ),
                );
                proof {
                    assert(out@.subrange(0, before.len() as int) =~= before);
                }
            },
        }
        proof {
            lemma_grew_trans(o0, before, out@);
        }
        i = i + 1;
    }
    ops
}

fn parse_optional_hash(v: &FieldValue, out: &mut Vec<Diagnostic>) -> (r: Option<String>)
    ensures
        match r {
            Some(s) => *v matches FieldValue::String { value, .. } && value@ == s@,
            None => !(*v is String),
        },
        grew_by_revision_errors(old(out)@, final(out)@),
{
    proof {
        assert(out@.subrange(0, out@.len() as int) =~= out@);
    }
    match v {
        FieldValue::Ident(i) => {
            if is_lit(&i.name, "null") {
                return None;
            }
        },
        FieldValue::String { value, .. } => {
            return Some(owned(value.as_str()));
        },
        _ => {},
    }
    out.push(
        Diagnostic::error(codes::E_REV_REPLAY_FAILED, v.span(), owned("`base_hash:` must be either null or a string")).with_hint(
            owned("write `base_hash: null` on revision 1 and a sha256 string afterwards"),
        ),
    );
    proof {
        assert(out@.subrange(0, old(out)@.len() as int) =~= old(out)@);
    }
    None
}

/// Read one `revision N` block; none (with a diagnostic) when its name is
/// not a positive integer.
fn parse_revision_entry(b: &BlockDecl, out: &mut Vec<Diagnostic>) -> (r: Option<InlineRevision>)
    ensures
        match r {
            Some(rev) => revision_number_of(BlockItem::Block(*b)) is Some ==> revision_matches(rev, *b),
            None => true,
        },
        b.kind.name@ == "revision"@ ==> (r is Some <==> revision_number_of(BlockItem::Block(*b)) is Some),
        grew_by_revision_errors(old(out)@, final(out)@),
{
    let ghost o0 = out@;
    proof {
        assert(out@.subrange(0, out@.len() as int) =~= out@);
    }
    let number: u64 = match &b.name {
        Some(BlockName::Int { value, .. }) => {
            if *value > 0 {
                *value as u64
            } else {
                let v = i64_text(*value);
                out.push(
                    Diagnostic::error(codes::E_REV_NUMBER_GAP, b.span, cat("revision number must be positive, got ", v.as_str())),
                );
                proof {
                    assert(out@.subrange(0, old(out)@.len() as int) =~= old(out)@);
                }
                return None;
            }
        },
        _ => {
            out.push(
                Diagnostic::error(codes::E_REV_REPLAY_FAILED, b.span, owned("`revision` block must use an integer name")).with_hint(
                    owned("write `revision 1 { ... }`"),
                ),
            );
            proof {
                assert(out@.subrange(0, old(out)@.len() as int) =~= old(out)@);
            }
            return None;
        },
    };
    let ghost o1 = out@;
    let bh = required_field(b, "base_hash", out);
    let ghost oa = out@;
    let base_hash = match bh {
        Some(v) => parse_optional_hash(v, out),
        None => None,
    };
    proof {
        lemma_grew_refl(oa);
        lemma_grew_trans(o0, oa, out@);
    }
    let ghost o2 = out@;
    let rh = required_field(b, "result_hash", out);
    let ghost ob = out@;
    let result_hash = match rh {
        Some(v) => match string_like(v, out) {
            Some(h) => h,
            None => owned("sha256:<invalid>"),
        },
        None => owned("sha256:<invalid>"),
    };
    proof {
        lemma_grew_refl(ob);
        lemma_grew_trans(o2, ob, out@);
        lemma_grew_trans(o0, o2, out@);
    }
    let ghost o3 = out@;
    let rs = required_field(b, "reason", out);
    let ghost oc = out@;
    let reason = match rs {
        Some(v) => match string_like(v, out) {
            Some(s) => s,
            None => String::new(),
        },
        None => String::new(),
    };
    proof {
        lemma_grew_refl(oc);
        lemma_grew_trans(o3, oc, out@);
        lemma_grew_trans(o0, o3, out@);
    }
    let ghost o4 = out@;
    let author = match field_value(b, "author") {
        Some(v) => string_like(v, out),
        None => None,
    };
    proof {
        lemma_grew_refl(o4);
        lemma_grew_trans(o0, o4, out@);
    }
    let ghost o5 = out@;
    let os = required_field(b, "ops", out);
    let ghost od = out@;
    let ops = match os {
        Some(FieldValue::List { items, .. }) => parse_ops(items, out),
        Some(v) => {
            out.push(
                Diagnostic::error(codes::E_REV_REPLAY_FAILED, v.span(), owned("`ops:` must be a list of op maps")).with_hint(
                    owned("write `ops: [{ op: \"genesis_from_materialized_view\", ... }]`"),
                ),
            );
            proof {
                assert(out@.subrange(0, od.len() as int) =~= od);
            }
            Vec::new()
        },
        None => Vec::new(),
    };
    proof {
        lemma_grew_refl(od);
        lemma_grew_trans(o5, od, out@);
        lemma_grew_trans(o0, o5, out@);
    }
    let base_revision = if number > 1 {
        Some(number - 1)
    } else {
        None
    };
    Some(
        InlineRevision {
            span: b.span,
            summary: RevisionSummary {
                revision_number: number,
                base_revision,
                base_hash,
                result_hash,
                patch_format_version: owned(PATCH_FORMAT_VERSION),
                reason,
                author,
                ops,
            },
        },
    )
}

// ---------------------------------------------------------------------------
// Collecting the chain
// ---------------------------------------------------------------------------

/// The revisions of a slice's first `revisions` block, one per
/// `revision N` block with a positive number, in order. Diagnostics name
/// a second `revisions` block, anything in the block that is not a
/// `revision` block, and every malformed field or op.
pub fn collect_inline_revisions(file: &File) -> (r: InlineRevisionChain)
    ensures
        match file.slice {
            None => r.revisions_block_span is None && r.revisions@.len() == 0 && r.diagnostics@.len() == 0,
            Some(s) => {
                let blocks = revisions_blocks(s.items@);
                if blocks.len() == 0 {
                    r.revisions_block_span is None && r.revisions@.len() == 0 && r.diagnostics@.len() == 0
                } else {
                    let entries = numbered_revisions(blocks[0].items@);
                    &&& r.revisions_block_span == Some(blocks[0].span)
                    &&& r.revisions@.len() == entries.len()
                    &&& forall|j: int| 0 <= j < entries.len() ==> revision_matches(#[trigger] r.revisions@[j], entries[j])
                    &&& blocks.len() > 1 ==> r.diagnostics@.len() > 0 && dv(r.diagnostics@[0]) == hinted(
                        codes::E_REV_REPLAY_FAILED,
                        Severity::Error,
                        "slice declares more than one `revisions` block"@,
                        blocks[1].span,
                        "keep exactly one append-only revisions block per slice"@,
                    )
                }
            },
        },
        forall|k: int| 0 <= k < r.diagnostics@.len() ==> (#[trigger] r.diagnostics@[k]).severity == Severity::Error
            && is_revision_code(r.diagnostics@[k].code),
{
    let slice = match &file.slice {
        Some(s) => s,
        None => return InlineRevisionChain { revisions_block_span: None, revisions: Vec::new(), diagnostics: Vec::new() },
    };
    let items = &slice.items;
    // The first two revisions blocks.
    let mut first: Option<usize> = None;
    let mut second: Option<usize> = None;
    let mut i: usize = 0;
    while i < items.len()
        invariant
            i <= items@.len(),
            match first {
                None => revisions_blocks(items@.subrange(0, i as int)).len() == 0,
                Some(f) => f < i && revisions_blocks(items@.subrange(0, i as int)).len() >= 1 && items@[f as int] is Block
                    && revisions_blocks(items@.subrange(0, i as int))[0] == items@[f as int]->Block_0,
            },
            match second {
                None => revisions_blocks(items@.subrange(0, i as int)).len() <= 1,
                Some(g) => g < i && revisions_blocks(items@.subrange(0, i as int)).len() >= 2 && items@[g as int] is Block
                    && revisions_blocks(items@.subrange(0, i as int))[1] == items@[g as int]->Block_0,
            },
            second is Some ==> first is Some,
        decreases items@.len() - i,
    {
        proof {
            let pre = items@.subrange(0, i as int);
            assert(items@.subrange(0, i as int + 1).drop_last() =~= pre);
            lemma_revisions_blocks_prefix(pre, items@.subrange(0, i as int + 1));
        }
        match &items[i] {
            BlockItem::Block(b) => {
                if kind_is(b, "revisions") {
                    if first.is_none() {
                        first = Some(i);
                    } else if second.is_none() {
                        second = Some(i);
                    }
                }
            },
            _ => {},
        }
        i = i + 1;
    }
    assert(items@.subrange(0, items@.len() as int) =~= items@);
    let f = match first {
        Some(f) => f,
        None => return InlineRevisionChain { revisions_block_span: None, revisions: Vec::new(), diagnostics: Vec::new() },
    };
    let block = match &items[f] {
        BlockItem::Block(b) => b,
        BlockItem::Field(_) => {
            return InlineRevisionChain { revisions_block_span: None, revisions: Vec::new(), diagnostics: Vec::new() };
        },
    };
    let mut diagnostics: Vec<Diagnostic> = Vec::new();
    match second {
        Some(g) => match &items[g] {
            BlockItem::Block(b2) => {
                diagnostics.push(
                    Diagnostic::error(
                        codes::E_REV_REPLAY_FAILED,
                        b2.span,
                        owned("slice declares more than one `revisions` block"),
                    ).with_hint(owned("keep exactly one append-only revisions block per slice")),
                );
            },
            _ => {},
        },
        None => {},
    }
    let ghost d0 = diagnostics@;
    let mut revisions: Vec<InlineRevision> = Vec::new();
    let mut k: usize = 0;
    proof {
        assert(diagnostics@.subrange(0, diagnostics@.len() as int) =~= diagnostics@);
    }
    while k < block.items.len()
        invariant
            k <= block.items@.len(),
            grew_by_revision_errors(d0, diagnostics@),
            forall|q: int| 0 <= q < d0.len() ==> (#[trigger] d0[q]).severity == Severity::Error && is_revision_code(d0[q].code),
            revisions@.len() == numbered_revisions(block.items@.subrange(0, k as int)).len(),
            forall|j: int|
                0 <= j < revisions@.len() ==> revision_matches(
                    #[trigger] revisions@[j],
                    numbered_revisions(block.items@.subrange(0, k as int))[j],
                ),
        decreases block.items@.len() - k,
    {
        let ghost pre = block.items@.subrange(0, k as int);
        assert(block.items@.subrange(0, k as int + 1).drop_last() =~= pre);
        let ghost before = diagnostics@;
        match &block.items[k] {
            BlockItem::Block(b) => {
                if kind_is(b, "revision") {
                    match parse_revision_entry(b, &mut diagnostics) {
                        Some(rev) => {
                            revisions.push(rev);
                        },
                        None => {},
                    }
                } else {
                    diagnostics.push(
                        Diagnostic::error(
                            codes::E_REV_REPLAY_FAILED,
                            b.span,
                            cat3("`revisions` block may only contain `revision N` blocks, found `", b.kind.name.as_str(), "`"),
                        ).with_hint(owned("write `revision 1 { ... }`, `revision 2 { ... }`, ...")),
                    );
                    proof {
                        assert(diagnostics@.subrange(0, before.len() as int) =~= before);
                    }
                }
            },
            BlockItem::Field(fl) => {
                diagnostics.push(
                    Diagnostic::error(codes::E_REV_REPLAY_FAILED, fl.span, owned("`revisions` block may not contain fields")).with_hint(
                        owned("put base_hash/result_hash/ops/reason inside each `revision N` block"),
                    ),
                );
                proof {
                    assert(diagnostics@.subrange(0, before.len() as int) =~= before);
                }
            },
        }
        proof {
            lemma_grew_trans(d0, before, diagnostics@);
        }
        k = k + 1;
    }
    assert(block.items@.subrange(0, block.items@.len() as int) =~= block.items@);
    let r = InlineRevisionChain { revisions_block_span: Some(block.span), revisions, diagnostics };
    proof {
        assert forall|q: int| 0 <= q < r.diagnostics@.len() implies (#[trigger] r.diagnostics@[q]).severity == Severity::Error
            && is_revision_code(r.diagnostics@[q].code) by {
            if q < d0.len() {
                assert(r.diagnostics@[q] == d0[q]);
            }
        }
        if second is Some {
            assert(r.diagnostics@[0] == d0[0]);
        }
    }
    r
}

proof fn lemma_revisions_blocks_prefix(pre: Seq<BlockItem>, longer: Seq<BlockItem>)
    requires
        longer.len() == pre.len() + 1,
        longer.drop_last() == pre,
    ensures
        revisions_blocks(longer) == revisions_blocks(pre) + if is_revisions_block_item(longer.last()) {
            seq![longer.last()->Block_0]
        } else {
            seq![]
        },
{
}

// ---------------------------------------------------------------------------
// Validating the chain
// ---------------------------------------------------------------------------

/// More revisions than this draw a snapshot-compaction note.
pub const LONG_CHAIN_THRESHOLD: usize = 200;

/// Whether the last revision must hash to the current projection.
#[derive(Clone, Copy, PartialEq, Eq, Structural)]
pub enum TerminalCheck {
    RequireCurrentProjection,
    AllowCurrentProjectionMismatch,
}

/// The op is a `reorder_items` whose path names a walk.
pub open spec fn op_reorders_walks(op: SemanticPatchOp) -> bool {
    match op {
        SemanticPatchOp::ReorderItems { block_path, .. } => crate::analysis::revisions::replay::path_targets_walks(
            block_path@,
        ),
        _ => false,
    }
}

/// An E0505 diagnostic per op of `ops` that reorders walks.
pub open spec fn walk_reorder_diags(ops: Seq<SemanticPatchOp>, span: Span) -> Seq<DiagView>
    decreases ops.len(),
{
    if ops.len() == 0 {
        seq![]
    } else {
        walk_reorder_diags(ops.drop_last(), span) + if op_reorders_walks(ops.last()) {
            seq![
                hinted(
                    codes::E_REV_REORDER_FORBIDDEN_ON_WALKS,
                    Severity::Error,
                    "ReorderItems may not target walk declarations"@,
                    span,
                    "walk declarations are chronological and append-only in v0"@,
                ),
            ]
        } else {
            seq![]
        }
    }
}

/// The numbering and walk-reorder diagnostics of the first `n` revisions.
pub open spec fn numbering_diags(revs: Seq<InlineRevision>, n: int) -> Seq<DiagView>
    decreases n,
{
    if n <= 0 {
        seq![]
    } else {
        let r = revs[n - 1];
        numbering_diags(revs, n - 1) + (if r.summary.revision_number != n {
            seq![
                hinted(
                    codes::E_REV_NUMBER_GAP,
                    Severity::Error,
                    "revision block number "@ + decimal_text(r.summary.revision_number as nat)
                        + " is not contiguous; expected "@ + decimal_text(n as nat),
                    r.span,
                    "revision numbers must be 1, 2, 3, ... in source order"@,
                ),
            ]
        } else {
            seq![]
        }) + walk_reorder_diags(r.summary.ops@, r.span)
    }
}

/// A diagnostic for each revision after the first whose base hash is not
/// the previous one's result hash, among the first `n`.
pub open spec fn link_diags(revs: Seq<InlineRevision>, n: int) -> Seq<DiagView>
    decreases n,
{
    if n <= 1 {
        seq![]
    } else {
        let prev = revs[n - 2];
        let next = revs[n - 1];
        link_diags(revs, n - 1) + if !(next.summary.base_hash matches Some(h) && h@ == prev.summary.result_hash@) {
            seq![
                hinted(
                    codes::E_REV_BASE_HASH_BREAK,
                    Severity::Error,
                    "revision "@ + decimal_text(next.summary.revision_number as nat)
                        + " base_hash does not match revision "@ + decimal_text(prev.summary.revision_number as nat)
                        + " result_hash"@,
                    next.span,
                    "each revision must name the exact result_hash it builds on"@,
                ),
            ]
        } else {
            seq![]
        }
    }
}

/// The checks of a chain that need no replay: length, numbering, walk
/// reorders, the genesis base hash, and the hash links.
pub open spec fn chain_check_diags(revs: Seq<InlineRevision>) -> Seq<DiagView> {
    (if revs.len() > LONG_CHAIN_THRESHOLD {
        seq![
            hinted(
                codes::W_REV_LONG_CHAIN,
                Severity::Info,
                "revisions block has "@ + decimal_text(revs.len()) + " entries; consider snapshot compaction"@,
                revs[LONG_CHAIN_THRESHOLD as int].span,
                "v0 replay stays correct, but long chains make parsing and diffs noisy"@,
            ),
        ]
    } else {
        seq![]
    }) + numbering_diags(revs, revs.len() as int) + (if revs[0].summary.base_hash is Some {
        seq![
            hinted(
                codes::E_REV_BASE_HASH_BREAK,
                Severity::Error,
                "revision 1 must have `base_hash: null`"@,
                revs[0].span,
                "the genesis revision is anchored without a prior base hash"@,
            ),
        ]
    } else {
        seq![]
    }) + link_diags(revs, revs.len() as int)
}

/// A diagnostic of replay or of the terminal check.
pub open spec fn is_replay_outcome(d: Diagnostic) -> bool {
    &&& d.severity == Severity::Error
    &&& d.code == codes::E_REV_REPLAY_FAILED || d.code == codes::E_REV_REORDER_FORBIDDEN_ON_WALKS || d.code
        == codes::E_REV_TERMINAL_MISMATCH
}

/// The terminal revision does not hash to the file's current projection.
pub open spec fn terminal_mismatch(file: File, revs: Seq<InlineRevision>) -> bool {
    revs.len() > 0 && revs.last().summary.result_hash@ != spec_source_sha256(spec_canonical_projection(file))
}

fn push_diag(out: &mut Vec<Diagnostic>, d: Diagnostic)
    ensures
        final(out)@ == old(out)@.push(d),
        dvs(final(out)@) == dvs(old(out)@).push(dv(d)),
        final(out)@.subrange(0, old(out)@.len() as int) == old(out)@,
{
    out.push(d);
    assert(dvs(out@) =~= dvs(old(out)@).push(dv(d)));
    assert(out@.subrange(0, old(out)@.len() as int) =~= old(out)@);
}

fn decimal(n: u64) -> (r: String)
    ensures
        r@ == decimal_text(n as nat),
{
    u64_text(n)
}

/// Push the checks that need no replay.
fn push_chain_checks(revisions: &Vec<InlineRevision>, out: &mut Vec<Diagnostic>)
    requires
        revisions@.len() > 0,
    ensures
        dvs(final(out)@) == dvs(old(out)@) + chain_check_diags(revisions@),
        final(out)@.len() >= old(out)@.len(),
        final(out)@.subrange(0, old(out)@.len() as int) == old(out)@,
{
    let n = revisions.len();
    let ghost o0 = dvs(out@);
    proof {
        assert(out@.subrange(0, out@.len() as int) =~= out@);
    }
    if n > LONG_CHAIN_THRESHOLD {
        let t = decimal(n as u64);
        let d = Diagnostic::info(
            codes::W_REV_LONG_CHAIN,
            revisions[LONG_CHAIN_THRESHOLD].span,
            cat3("revisions block has ", t.as_str(), " entries; consider snapshot compaction"),
        ).with_hint(owned("v0 replay stays correct, but long chains make parsing and diffs noisy"));
        push_diag(out, d);
    }
    let ghost o1 = dvs(out@);
    let mut idx: usize = 0;
    while idx < n
        invariant
            idx <= n == revisions@.len(),
            dvs(out@) == o1 + numbering_diags(revisions@, idx as int),
            out@.len() >= old(out)@.len(),
            out@.subrange(0, old(out)@.len() as int) == old(out)@,
        decreases n - idx,
    {
        let rev = &revisions[idx];
        let expected: u64 = (idx + 1) as u64;
        let ghost before = dvs(out@);
        if rev.summary.revision_number != expected {
            let a = decimal(rev.summary.revision_number);
            let b = decimal(expected);
            let d = Diagnostic::error(
                codes::E_REV_NUMBER_GAP,
                rev.span,
                cat4("revision block number ", a.as_str(), " is not contiguous; expected ", b.as_str()),
            ).with_hint(owned("revision numbers must be 1, 2, 3, ... in source order"));
            push_diag(out, d);
        }
        let ghost mid = dvs(out@);
        let ops = &rev.summary.ops;
        let mut j: usize = 0;
        while j < ops.len()
            invariant
                j <= ops@.len(),
                dvs(out@) == mid + walk_reorder_diags(ops@.subrange(0, j as int), rev.span),
                out@.len() >= old(out)@.len(),
                out@.subrange(0, old(out)@.len() as int) == old(out)@,
            decreases ops@.len() - j,
        {
            assert(ops@.subrange(0, j as int + 1).drop_last() =~= ops@.subrange(0, j as int));
            let hit = match &ops[j] {
                SemanticPatchOp::ReorderItems { block_path, .. } => reorder_targets_walk_path(block_path),
                _ => false,
            };
            if hit {
                let d = Diagnostic::error(
                    codes::E_REV_REORDER_FORBIDDEN_ON_WALKS,
                    rev.span,
                    owned("ReorderItems may not target walk declarations"),
                ).with_hint(owned("walk declarations are chronological and append-only in v0"));
                push_diag(out, d);
            }
            assert(dvs(out@) =~= mid + walk_reorder_diags(ops@.subrange(0, j as int + 1), rev.span));
            j = j + 1;
        }
        assert(ops@.subrange(0, ops@.len() as int) =~= ops@);
        assert(dvs(out@) =~= o1 + numbering_diags(revisions@, idx as int + 1));
        idx = idx + 1;
    }
    let ghost o2 = dvs(out@);
    match &revisions[0].summary.base_hash {
        Some(_) => {
            let d = Diagnostic::error(
                codes::E_REV_BASE_HASH_BREAK,
                revisions[0].span,
                owned("revision 1 must have `base_hash: null`"),
            ).with_hint(owned("the genesis revision is anchored without a prior base hash"));
            push_diag(out, d);
        },
        None => {},
    }
    let ghost o3 = dvs(out@);
    let mut w: usize = 1;
    while w < n
        invariant
            1 <= w <= n == revisions@.len(),
            dvs(out@) == o3 + link_diags(revisions@, w as int),
            out@.len() >= old(out)@.len(),
            out@.subrange(0, old(out)@.len() as int) == old(out)@,
        decreases n - w,
    {
        let prev = &revisions[w - 1];
        let next = &revisions[w];
        let linked = match &next.summary.base_hash {
            Some(h) => str_eq(h.as_str(), prev.summary.result_hash.as_str()),
            None => false,
        };
        if !linked {
            let a = decimal(next.summary.revision_number);
            let b = decimal(prev.summary.revision_number);
            let mut m = cat3("revision ", a.as_str(), " base_hash does not match revision ");
            m.append(b.as_str());
            m.append(" result_hash");
            let d = Diagnostic::error(codes::E_REV_BASE_HASH_BREAK, next.span, m).with_hint(
                owned("each revision must name the exact result_hash it builds on"),
            );
            push_diag(out, d);
        }
        assert(dvs(out@) =~= o3 + link_diags(revisions@, w as int + 1));
        w = w + 1;
    }
    assert(dvs(out@) =~= o0 + chain_check_diags(revisions@));
}

/// Push the replay failure, if any, and the terminal checks.
fn push_replay_checks(file: &File, revisions: &Vec<InlineRevision>, terminal: TerminalCheck, out: &mut Vec<Diagnostic>)
    requires
        revisions@.len() > 0,
    ensures
        final(out)@.len() >= old(out)@.len(),
        final(out)@.subrange(0, old(out)@.len() as int) == old(out)@,
        forall|k: int| old(out)@.len() <= k < final(out)@.len() ==> is_replay_outcome(#[trigger] final(out)@[k]),
        terminal == TerminalCheck::RequireCurrentProjection ==> (terminal_mismatch(*file, revisions@) <==> exists|k: int|
            old(out)@.len() <= k < final(out)@.len() && (#[trigger] final(out)@[k]).code == codes::E_REV_TERMINAL_MISMATCH),
        terminal == TerminalCheck::AllowCurrentProjectionMismatch ==> forall|k: int|
            old(out)@.len() <= k < final(out)@.len() ==> (#[trigger] final(out)@[k]).code != codes::E_REV_TERMINAL_MISMATCH,
{
    proof {
        reveal_strlit("memspec/E0502");
        reveal_strlit("memspec/E0503");
        reveal_strlit("memspec/E0505");
    }
    let ghost o0 = out@;
    let n = revisions.len();
    let replayed = replay_revisions(file, revisions);
    let replayed_text: Option<String> = match replayed {
        Ok(p) => Some(p),
        Err(d) => {
            push_diag(out, d);
            None
        },
    };
    let ghost o1 = out@;
    assert(forall|k: int| o0.len() <= k < o1.len() ==> (#[trigger] o1[k]).code != codes::E_REV_TERMINAL_MISMATCH);
    if terminal == TerminalCheck::RequireCurrentProjection {
        let projection = canonical_source_projection(file);
        let projection_hash = source_sha256(projection.as_str());
        let last = &revisions[n - 1];
        if !str_eq(last.summary.result_hash.as_str(), projection_hash.as_str()) {
            let mut m = cat3("terminal revision hash ", last.summary.result_hash.as_str(), " does not match current source projection ");
            m.append(projection_hash.as_str());
            let d = Diagnostic::error(codes::E_REV_TERMINAL_MISMATCH, last.span, m).with_hint(
                owned("run `memspec experimental synthesize-revision <file>` after semantic edits"),
            );
            push_diag(out, d);
            assert(out@[o1.len() as int].code == codes::E_REV_TERMINAL_MISMATCH);
        }
        let ghost o2 = out@;
        match replayed_text {
            Some(p) => {
                let replayed_hash = source_sha256(p.as_str());
                if !str_eq(replayed_hash.as_str(), projection_hash.as_str()) {
                    let mut m = cat3("terminal replay hash ", replayed_hash.as_str(), " does not match current source projection ");
                    m.append(projection_hash.as_str());
                    let d = Diagnostic::error(codes::E_REV_REPLAY_FAILED, last.span, m).with_hint(
                        owned("revision ops must replay to the same projection as the current source"),
                    );
                    push_diag(out, d);
                }
            },
            None => {},
        }
        proof {
            if terminal_mismatch(*file, revisions@) {
                assert(out@[o1.len() as int] == o2[o1.len() as int]);
            } else {
                assert(o2 == o1);
                assert forall|k: int| o0.len() <= k < out@.len() implies (#[trigger] out@[k]).code
                    != codes::E_REV_TERMINAL_MISMATCH by {
                    if k < o1.len() {
                        assert(out@[k] == o1[k]);
                    }
                }
            }
        }
    }
    proof {
        assert(out@.subrange(0, o0.len() as int) =~= o0);
    }
}

/// Validate a chain: the checks that need no replay, then the replay, then
/// (when required) that the last revision is the current projection.
pub fn validate_inline_revision_chain(
    file: &File,
    revisions: &Vec<InlineRevision>,
    terminal: TerminalCheck,
    out: &mut Vec<Diagnostic>,
)
    ensures
        final(out)@.len() >= old(out)@.len(),
        final(out)@.subrange(0, old(out)@.len() as int) == old(out)@,
        revisions@.len() == 0 ==> final(out)@ == old(out)@,
        revisions@.len() > 0 ==> {
            let base = old(out)@.len() + chain_check_diags(revisions@).len();
            &&& final(out)@.len() >= base
            &&& dvs(final(out)@.subrange(0, base as int)) == dvs(old(out)@) + chain_check_diags(revisions@)
            &&& forall|k: int| base <= k < final(out)@.len() ==> is_replay_outcome(#[trigger] final(out)@[k])
            &&& terminal == TerminalCheck::RequireCurrentProjection ==> (terminal_mismatch(*file, revisions@) <==> exists|k: int|
                base <= k < final(out)@.len() && (#[trigger] final(out)@[k]).code == codes::E_REV_TERMINAL_MISMATCH)
            &&& terminal == TerminalCheck::AllowCurrentProjectionMismatch ==> forall|k: int|
                base <= k < final(out)@.len() ==> (#[trigger] final(out)@[k]).code != codes::E_REV_TERMINAL_MISMATCH
        },
{
    if revisions.len() == 0 {
        return;
    }
    push_chain_checks(revisions, out);
    let ghost mid = out@;
    proof {
        assert(dvs(mid).len() == mid.len());
    }
    push_replay_checks(file, revisions, terminal, out);
    proof {
        assert(out@.subrange(0, mid.len() as int) == mid);
        assert(out@.subrange(0, old(out)@.len() as int) =~= mid.subrange(0, old(out)@.len() as int));
    }
}

/// The revision checks of a file: the chain's parse diagnostics, then its
/// validation against the current projection.
pub fn run(file: &File, out: &mut Vec<Diagnostic>)
    ensures
        final(out)@.len() >= old(out)@.len(),
        final(out)@.subrange(0, old(out)@.len() as int) == old(out)@,
        match file.slice {
            None => final(out)@ == old(out)@,
            Some(s) => revisions_blocks(s.items@).len() == 0 ==> final(out)@ == old(out)@,
        },
        file.slice matches Some(s) ==> revisions_blocks(s.items@).len() > 0 ==> {
            let entries = numbered_revisions(revisions_blocks(s.items@)[0].items@);
            exists|revs: Seq<InlineRevision>|
                {
                    &&& revs.len() == entries.len()
                    &&& forall|j: int| 0 <= j < entries.len() ==> revision_matches(#[trigger] revs[j], entries[j])
                    &&& terminal_mismatch(*file, revs) ==> exists|k: int|
                        old(out)@.len() <= k < final(out)@.len() && (#[trigger] final(out)@[k]).code
                            == codes::E_REV_TERMINAL_MISMATCH
                }
        },
{
    let chain = collect_inline_revisions(file);
    let mut ds = chain.diagnostics;
    let ghost o0 = out@;
    out.append(&mut ds);
    let ghost o1 = out@;
    validate_inline_revision_chain(file, &chain.revisions, TerminalCheck::RequireCurrentProjection, out);
    proof {
        if chain.revisions@.len() > 0 {
            let base = o1.len() + chain_check_diags(chain.revisions@).len();
            assert(out@.subrange(0, o1.len() as int) =~= o1);
        }
        assert(out@.subrange(0, o0.len() as int) =~= o0);
        if terminal_mismatch(*file, chain.revisions@) {
            let base = o1.len() + chain_check_diags(chain.revisions@).len();
            let k = choose|k: int| base <= k < out@.len() && (#[trigger] out@[k]).code == codes::E_REV_TERMINAL_MISMATCH;
            assert(o0.len() <= k);
        }
    }
}

} // verus!
