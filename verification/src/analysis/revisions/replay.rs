//! Replaying semantic patch ops onto a parsed file.
//!
//! Replay starts from the empty projection of the slice (`slice <name> {}`)
//! and applies every op of every revision in order; after each revision
//! the projection's hash must be the revision's declared `result_hash`.

use vstd::prelude::*;

use crate::analysis::nav::kind_is;
use crate::analysis::revisions::{
    BlockPathSegment, InlineRevision, SemanticPatchOp, canonical_source_projection, line_count, source_sha256,
    spec_canonical_projection, spec_line_count, spec_source_sha256,
};
use crate::text::int_text;
use crate::ast::{BlockDecl, BlockItem, BlockName, Field, FieldValue, File, Ident, Import, SliceDecl};
use crate::diagnostic::codes;
use crate::diagnostic::{Diagnostic, Severity};
use crate::parser;
use crate::span::Span;
use crate::text::{cat, cat3, cat4, cat5, chars_of, i64_text, is_lit, owned, push_char, str_eq, str_lt, u64_text};

verus! {

/// A replay failure at `span`.
pub open spec fn is_replay_error(d: Diagnostic, span: Span) -> bool {
    &&& d.severity == Severity::Error
    &&& (d.code == codes::E_REV_REPLAY_FAILED || d.code == codes::E_REV_REORDER_FORBIDDEN_ON_WALKS)
    &&& d.span == span
}

pub fn replay_error(span: Span, message: String) -> (d: Diagnostic)
    ensures
        d.code == codes::E_REV_REPLAY_FAILED,
        d.severity == Severity::Error,
        d.span == span,
        d.message == message,
        d.hint is None,
{
    Diagnostic::error(codes::E_REV_REPLAY_FAILED, span, message)
}

/// `format!("{:?}", ..)` of a list of strings (std `Debug` for `Vec<String>`).
pub uninterp spec fn debug_strings(v: Seq<Seq<char>>) -> Seq<char>;

/// The list written with std's `Debug` (`["a", "b"]`). Contract: the
/// result is [`debug_strings`] of the items' texts.
#[verifier::external_body]
fn debug_list(v: &Vec<String>) -> (r: String)
    ensures
        r@ == debug_strings(v@.map_values(|s: String| s@)),
{
    format!("{:?}", v)
}

/// A block's name as written: its identifier, its number, or nothing.
pub open spec fn spec_display_name(b: BlockDecl) -> Seq<char> {
    match b.name {
        Some(BlockName::Ident(i)) => i.name@,
        Some(BlockName::Int { value, .. }) => crate::text::int_text(value as int),
        None => seq![],
    }
}

pub fn block_name_display(b: &BlockDecl) -> (r: String)
    ensures
        r@ == spec_display_name(*b),
{
    match &b.name {
        Some(BlockName::Ident(i)) => owned(i.name.as_str()),
        Some(BlockName::Int { value, .. }) => i64_text(*value),
        None => String::new(),
    }
}

/// The block is of kind `kind` and shows the name `name`.
pub open spec fn block_is(it: BlockItem, kind: Seq<char>, name: Seq<char>) -> bool {
    it is Block && it->Block_0.kind.name@ == kind && spec_display_name(it->Block_0) == name
}

/// Some block of `items` is of kind `kind` and named `name`.
pub open spec fn has_block(items: Seq<BlockItem>, kind: Seq<char>, name: Seq<char>) -> bool {
    exists|j: int| 0 <= j < items.len() && block_is(#[trigger] items[j], kind, name)
}

/// `i` is the position of the first block of `items` of kind `kind` named
/// `name`.
pub open spec fn is_first_block(items: Seq<BlockItem>, kind: Seq<char>, name: Seq<char>, i: int) -> bool {
    &&& 0 <= i < items.len()
    &&& block_is(items[i], kind, name)
    &&& forall|j: int| 0 <= j < i ==> !block_is(#[trigger] items[j], kind, name)
}

/// The position of the first block of kind `kind` named `name` (when
/// there is one).
pub open spec fn first_block(items: Seq<BlockItem>, kind: Seq<char>, name: Seq<char>) -> int {
    choose|i: int| is_first_block(items, kind, name, i)
}

proof fn lemma_first_block(items: Seq<BlockItem>, kind: Seq<char>, name: Seq<char>, i: int)
    requires
        is_first_block(items, kind, name, i),
    ensures
        first_block(items, kind, name) == i,
        has_block(items, kind, name),
{
    let k = first_block(items, kind, name);
    assert(is_first_block(items, kind, name, k));
    if k < i {
        assert(!block_is(items[k], kind, name));
    }
    if i < k {
        assert(!block_is(items[i], kind, name));
    }
}

/// Position of the first block of kind `kind` named `name`.
pub fn block_index(items: &Vec<BlockItem>, kind: &str, name: &str) -> (r: Option<usize>)
    ensures
        match r {
            Some(i) => i < items@.len() && block_is(items@[i as int], kind@, name@) && forall|j: int|
                0 <= j < i ==> !block_is(#[trigger] items@[j], kind@, name@),
            None => forall|j: int| 0 <= j < items@.len() ==> !block_is(#[trigger] items@[j], kind@, name@),
        },
{
    let mut i: usize = 0;
    while i < items.len()
        invariant
            i <= items@.len(),
            forall|j: int| 0 <= j < i ==> !block_is(#[trigger] items@[j], kind@, name@),
        decreases items@.len() - i,
    {
        match &items[i] {
            BlockItem::Block(b) => {
                if kind_is(b, kind) {
                    let n = block_name_display(b);
                    if str_eq(n.as_str(), name) {
                        return Some(i);
                    }
                }
            },
            _ => {},
        }
        i = i + 1;
    }
    None
}

/// Position of the first field named `name`.
pub fn field_index(items: &Vec<BlockItem>, name: &str) -> (r: Option<usize>)
    ensures
        match r {
            Some(i) => is_first_field(items@, name@, i as int),
            None => !has_field(items@, name@),
        },
{
    let mut i: usize = 0;
    while i < items.len()
        invariant
            i <= items@.len(),
            forall|j: int|
                0 <= j < i ==> !(#[trigger] items@[j] is Field && items@[j]->Field_0.key.name@ == name@),
        decreases items@.len() - i,
    {
        match &items[i] {
            BlockItem::Field(f) => {
                if is_lit(&f.key.name, name) {
                    return Some(i);
                }
            },
            _ => {},
        }
        i = i + 1;
    }
    proof {
        assert forall|j: int| 0 <= j < items@.len() && #[trigger] items@[j] is Field implies items@[j]->Field_0.key.name@
            != name@ by {}
    }
    None
}

/// `i` is the first field of `items` keyed `name`.
pub open spec fn is_first_field(items: Seq<BlockItem>, name: Seq<char>, i: int) -> bool {
    &&& 0 <= i < items.len()
    &&& items[i] is Field && items[i]->Field_0.key.name@ == name
    &&& forall|j: int| 0 <= j < i ==> !(#[trigger] items[j] is Field && items[j]->Field_0.key.name@ == name)
}

/// The position of the first field keyed `name`.
pub open spec fn first_field(items: Seq<BlockItem>, name: Seq<char>) -> int {
    choose|i: int| is_first_field(items, name, i)
}

proof fn lemma_first_field(items: Seq<BlockItem>, name: Seq<char>, i: int)
    requires
        is_first_field(items, name, i),
    ensures
        first_field(items, name) == i,
        has_field(items, name),
{
    let k = first_field(items, name);
    assert(is_first_field(items, name, k));
    if k < i {
        assert(!(items[k] is Field && items[k]->Field_0.key.name@ == name));
    } else if i < k {
        assert(!(items[i] is Field && items[i]->Field_0.key.name@ == name));
    }
}

fn dummy_ident(name: &str) -> (r: Ident)
    ensures
        r.name@ == name@,
        r.span == no_span(),
{
    Ident { span: Span::dummy(), name: owned(name) }
}

/// An empty block of `kind`, with `name`.
pub fn empty_block(kind: &str, name: Option<BlockName>) -> (b: BlockDecl)
    ensures
        b.kind.name@ == kind@,
        b.kind.span == no_span(),
        b.span == no_span(),
        b.name == name,
        b.items@.len() == 0,
{
    BlockDecl { span: Span::dummy(), kind: dummy_ident(kind), name, items: Vec::new() }
}

/// The path targets a walk (by kind or by name).
pub open spec fn walk_word(s: Seq<char>) -> bool {
    s == "walk"@ || s == "walks"@
}

pub fn is_walk_word(s: &String) -> (r: bool)
    ensures
        r == walk_word(s@),
{
    is_lit(s, "walk") || is_lit(s, "walks")
}

/// A segment that names a walk.
pub open spec fn seg_walk(s: BlockPathSegment) -> bool {
    walk_word(s.kind@) || walk_word(s.name@)
}

pub open spec fn path_targets_walks(path: Seq<BlockPathSegment>) -> bool {
    exists|i: int| 0 <= i < path.len() && #[trigger] seg_walk(path[i])
}

pub fn reorder_targets_walk_path(path: &Vec<BlockPathSegment>) -> (r: bool)
    ensures
        r == path_targets_walks(path@),
{
    let mut i: usize = 0;
    while i < path.len()
        invariant
            i <= path@.len(),
            forall|j: int| 0 <= j < i ==> !#[trigger] seg_walk(path@[j]),
        decreases path@.len() - i,
    {
        if is_walk_word(&path[i].kind) || is_walk_word(&path[i].name) {
            assert(seg_walk(path@[i as int]));
            return true;
        }
        i = i + 1;
    }
    false
}

/// The empty projection of a file's slice: `slice <name> {` and `}`
/// (`unnamed` without a slice).
pub open spec fn spec_empty_projection(file: File) -> Seq<char> {
    "slice "@ + match file.slice {
        Some(s) => s.name.name@,
        None => "unnamed"@,
    } + " {\n}\n"@
}

pub fn empty_projection_for_file(file: &File) -> (r: String)
    ensures
        r@ == spec_empty_projection(*file),
{
    let name = match &file.slice {
        Some(s) => s.name.name.as_str(),
        None => "unnamed",
    };
    cat3("slice ", name, " {\n}\n")
}

/// The lines of `s[i..]`, the line begun before `i` being `cur` (`open`
/// when it holds a character).
pub open spec fn lines_from(s: Seq<char>, i: int, cur: Seq<char>, open: bool) -> Seq<Seq<char>>
    decreases s.len() - i,
{
    if i < 0 || i >= s.len() {
        if open {
            seq![cur]
        } else {
            seq![]
        }
    } else if s[i] == '\n' {
        seq![cur] + lines_from(s, i + 1, seq![], false)
    } else if s[i] == '\r' && i + 1 < s.len() && s[i + 1] == '\n' {
        seq![cur] + lines_from(s, i + 2, seq![], false)
    } else {
        lines_from(s, i + 1, cur.push(s[i]), true)
    }
}

/// The lines of `s`: split after each `\n`, the `\n` and a `\r` before it
/// dropped, no empty line after a final `\n`.
pub open spec fn spec_lines(s: Seq<char>) -> Seq<Seq<char>> {
    lines_from(s, 0, seq![], false)
}

/// The lines of `s` as `str::lines` gives them: split after each `\n`,
/// the `\n` and a `\r` before it dropped, no empty line after a final
/// `\n`.
pub fn lines_of(s: &str) -> (r: Vec<String>)
    ensures
        r@.map_values(|t: String| t@) == spec_lines(s@),
{
    let cs = chars_of(s);
    let mut out: Vec<String> = Vec::new();
    let mut cur = String::new();
    let mut i: usize = 0;
    let mut open_line = false;
    assert(out@.map_values(|t: String| t@) =~= Seq::<Seq<char>>::empty());
    while i < cs.len()
        invariant
            i <= cs@.len(),
            cs@ == s@,
            out@.map_values(|t: String| t@) + lines_from(s@, i as int, cur@, open_line) == spec_lines(s@),
        decreases cs@.len() - i,
    {
        let c = cs[i];
        let ghost o = out@;
        let ghost cur0 = cur@;
        if c == '\n' {
            out.push(cur);
            cur = String::new();
            open_line = false;
        } else if c == '\r' && i + 1 < cs.len() && cs[i + 1] == '\n' {
            out.push(cur);
            cur = String::new();
            open_line = false;
            i = i + 1;
        } else {
            push_char(&mut cur, c);
            open_line = true;
        }
        proof {
            if out@.len() > o.len() {
                assert(out@.map_values(|t: String| t@) =~= o.map_values(|t: String| t@).push(cur0));
                assert(o.map_values(|t: String| t@).push(cur0) + lines_from(s@, i + 1, cur@, open_line) =~= o.map_values(
                    |t: String| t@,
                ) + (seq![cur0] + lines_from(s@, i + 1, cur@, open_line)));
            }
        }
        i = i + 1;
    }
    let ghost o = out@;
    if open_line {
        out.push(cur);
        assert(out@.map_values(|t: String| t@) =~= o.map_values(|t: String| t@).push(cur@));
    } else {
        assert(o.map_values(|t: String| t@) + Seq::<Seq<char>>::empty() =~= o.map_values(|t: String| t@));
    }
    out
}

fn has_error(ds: &Vec<Diagnostic>) -> (r: bool)
    ensures
        r == exists|i: int| 0 <= i < ds@.len() && (#[trigger] ds@[i]).severity == Severity::Error,
{
    let mut i: usize = 0;
    while i < ds.len()
        invariant
            i <= ds@.len(),
            forall|j: int| 0 <= j < i ==> (#[trigger] ds@[j]).severity != Severity::Error,
        decreases ds@.len() - i,
    {
        if ds[i].severity == Severity::Error {
            return true;
        }
        i = i + 1;
    }
    false
}

/// Parse an `add_block` op's block for replay.
fn parse_replay_block(kind: &str, name: &str, items: &Vec<String>, span: Span) -> (r: Result<BlockDecl, Diagnostic>)
    ensures
        r matches Err(d) ==> is_replay_error(d, span),
{
    let mut source = owned("slice __replay {\n  ");
    source.append(kind);
    if !name.is_empty() {
        source.append(" ");
        source.append(name);
    }
    source.append(" {\n");
    let mut k: usize = 0;
    while k < items.len()
        invariant
            k <= items@.len(),
        decreases items@.len() - k,
    {
        let lines = lines_of(items[k].as_str());
        let mut j: usize = 0;
        while j < lines.len()
            invariant
                j <= lines@.len(),
            decreases lines@.len() - j,
        {
            source.append("    ");
            source.append(lines[j].as_str());
            source.append("\n");
            j = j + 1;
        }
        k = k + 1;
    }
    source.append("  }\n}\n");
    let parsed = parser::parse(source.as_str());
    if has_error(&parsed.diagnostics) {
        return Err(replay_error(span, cat5("add_block target `", kind, " ", name, "` could not be parsed for replay")));
    }
    let file = parsed.file;
    match file.slice {
        Some(slice) => {
            let mut items = slice.items;
            let mut i: usize = 0;
            while i < items.len()
                invariant
                    i <= items@.len(),
                decreases items@.len() - i,
            {
                if matches!(items[i], BlockItem::Block(_)) {
                    let it = items.remove(i);
                    match it {
                        BlockItem::Block(b) => {
                            return Ok(b);
                        },
                        BlockItem::Field(_) => {
                            return Err(replay_error(span, cat5("add_block target `", kind, " ", name, "` is empty")));
                        },
                    }
                }
                i = i + 1;
            }
            Err(replay_error(span, cat5("add_block target `", kind, " ", name, "` is empty")))
        },
        None => Err(replay_error(span, cat5("add_block target `", kind, " ", name, "` is empty"))),
    }
}

/// Parse a `modify_field` op's value for replay.
fn parse_replay_field_value(field_name: &str, value: &str, span: Span) -> (r: Result<FieldValue, Diagnostic>)
    ensures
        r matches Err(d) ==> is_replay_error(d, span),
{
    let mut source = owned("slice __replay {\n  cell __holder {\n    ");
    source.append(field_name);
    source.append(": ");
    source.append(value);
    source.append("\n  }\n}\n");
    let parsed = parser::parse(source.as_str());
    if has_error(&parsed.diagnostics) {
        let mut m = cat3("field `", field_name, "` value `");
        m.append(value);
        m.append("` could not be parsed for replay");
        return Err(replay_error(span, m));
    }
    let file = parsed.file;
    let slice = match file.slice {
        Some(s) => s,
        None => return Err(replay_error(span, owned("field replay parser returned no slice"))),
    };
    let mut items = slice.items;
    if items.len() == 0 {
        return Err(replay_error(span, owned("field replay parser returned no holder block")));
    }
    let first = items.remove(0);
    let block = match first {
        BlockItem::Block(b) => b,
        BlockItem::Field(_) => return Err(replay_error(span, owned("field replay parser returned no holder block"))),
    };
    let mut inner = block.items;
    let mut i: usize = 0;
    while i < inner.len()
        invariant
            i <= inner@.len(),
        decreases inner@.len() - i,
    {
        let hit = match &inner[i] {
            BlockItem::Field(f) => is_lit(&f.key.name, field_name),
            _ => false,
        };
        if hit {
            let it = inner.remove(i);
            match it {
                BlockItem::Field(f) => {
                    return Ok(f.value);
                },
                BlockItem::Block(_) => {},
            }
            return Err(replay_error(span, cat3("field `", field_name, "` value did not replay")));
        }
        i = i + 1;
    }
    Err(replay_error(span, cat3("field `", field_name, "` value did not replay")))
}

/// `n` is one of the names of `v`.
pub open spec fn in_names(v: Seq<String>, n: Seq<char>) -> bool {
    exists|j: int| 0 <= j < v.len() && (#[trigger] v[j])@ == n
}

/// `a` and `b` hold the same names (as sets).
pub open spec fn same_names(a: Seq<String>, b: Seq<String>) -> bool {
    &&& forall|i: int| 0 <= i < a.len() ==> in_names(b, (#[trigger] a[i])@)
    &&& forall|j: int| 0 <= j < b.len() ==> in_names(a, (#[trigger] b[j])@)
}

fn contains_name(v: &Vec<String>, name: &str) -> (r: bool)
    ensures
        r == in_names(v@, name@),
{
    let mut j: usize = 0;
    while j < v.len()
        invariant
            j <= v@.len(),
            forall|q: int| 0 <= q < j ==> (#[trigger] v@[q])@ != name@,
        decreases v@.len() - j,
    {
        if str_eq(v[j].as_str(), name) {
            return true;
        }
        j = j + 1;
    }
    false
}

fn same_name_sets(a: &Vec<String>, b: &Vec<String>) -> (r: bool)
    ensures
        r == same_names(a@, b@),
{
    let mut i: usize = 0;
    while i < a.len()
        invariant
            i <= a@.len(),
            forall|q: int| 0 <= q < i ==> in_names(b@, (#[trigger] a@[q])@),
        decreases a@.len() - i,
    {
        if !contains_name(b, a[i].as_str()) {
            return false;
        }
        i = i + 1;
    }
    let mut j: usize = 0;
    while j < b.len()
        invariant
            j <= b@.len(),
            forall|q: int| 0 <= q < a@.len() ==> in_names(b@, (#[trigger] a@[q])@),
            forall|q: int| 0 <= q < j ==> in_names(a@, (#[trigger] b@[q])@),
        decreases b@.len() - j,
    {
        if !contains_name(a, b[j].as_str()) {
            return false;
        }
        j = j + 1;
    }
    true
}

fn find_named(v: &Vec<(String, Option<BlockDecl>)>, name: &str) -> (r: Option<usize>)
    ensures
        match r {
            Some(j) => j < v@.len() && v@[j as int].0@ == name@ && forall|k: int| 0 <= k < j ==> (#[trigger] v@[k]).0@ != name@,
            None => forall|k: int| 0 <= k < v@.len() ==> (#[trigger] v@[k]).0@ != name@,
        },
{
    let mut j: usize = 0;
    while j < v.len()
        invariant
            j <= v@.len(),
            forall|k: int| 0 <= k < j ==> (#[trigger] v@[k]).0@ != name@,
        decreases v@.len() - j,
    {
        if str_eq(v[j].0.as_str(), name) {
            return Some(j);
        }
        j = j + 1;
    }
    None
}

/// Display names of the children of `items` of kind `kind`, in order.
pub open spec fn child_names(items: Seq<BlockItem>, kind: Seq<char>) -> Seq<Seq<char>>
    decreases items.len(),
{
    if items.len() == 0 {
        seq![]
    } else {
        child_names(items.drop_last(), kind) + match items.last() {
            BlockItem::Block(c) => if c.kind.name@ == kind {
                seq![spec_display_name(c)]
            } else {
                seq![]
            },
            BlockItem::Field(_) => seq![],
        }
    }
}

/// Display names of the children of kind `kind`, in order.
pub fn child_order(b: &BlockDecl, kind: &str) -> (r: Vec<String>)
    ensures
        r@.map_values(|t: String| t@) == child_names(b.items@, kind@),
{
    let mut out: Vec<String> = Vec::new();
    let mut i: usize = 0;
    assert(b.items@.take(0) =~= Seq::<BlockItem>::empty());
    assert(out@.map_values(|t: String| t@) =~= Seq::<Seq<char>>::empty());
    while i < b.items.len()
        invariant
            i <= b.items@.len(),
            out@.map_values(|t: String| t@) == child_names(b.items@.take(i as int), kind@),
        decreases b.items@.len() - i,
    {
        let ghost o = out@;
        let ghost t = b.items@.take(i + 1);
        assert(t.drop_last() =~= b.items@.take(i as int));
        assert(t.last() == b.items@[i as int]);
        match &b.items[i] {
            BlockItem::Block(c) => {
                if kind_is(c, kind) {
                    out.push(block_name_display(c));
                    assert(out@.map_values(|t: String| t@) =~= o.map_values(|t: String| t@).push(spec_display_name(*c)));
                } else {
                    assert(child_names(t, kind@) =~= child_names(b.items@.take(i as int), kind@));
                }
            },
            _ => {
                assert(child_names(t, kind@) =~= child_names(b.items@.take(i as int), kind@));
            },
        }
        i = i + 1;
    }
    assert(b.items@.take(i as int) =~= b.items@);
    out
}

/// The names `a` and the names of `b` hold the same names (as sets).
pub open spec fn same_name_views(a: Seq<Seq<char>>, b: Seq<String>) -> bool {
    &&& forall|i: int| 0 <= i < a.len() ==> in_names(b, #[trigger] a[i])
    &&& forall|j: int| 0 <= j < b.len() ==> a.contains((#[trigger] b[j])@)
}

/// Some child of `items` is of kind `kind`, and the names of the children
/// of that kind are exactly those of `order`.
pub open spec fn order_kind(items: Seq<BlockItem>, order: Seq<String>, kind: Seq<char>) -> bool {
    &&& exists|i: int| 0 <= i < items.len() && #[trigger] items[i] is Block && items[i]->Block_0.kind.name@ == kind
    &&& same_name_views(child_names(items, kind), order)
}

proof fn lemma_same_names_views(a: Seq<String>, b: Seq<String>)
    ensures
        same_names(a, b) == same_name_views(a.map_values(|t: String| t@), b),
{
    let av = a.map_values(|t: String| t@);
    if same_names(a, b) {
        assert forall|i: int| 0 <= i < av.len() implies in_names(b, #[trigger] av[i]) by {
            assert(in_names(b, a[i]@));
        }
        assert forall|j: int| 0 <= j < b.len() implies av.contains((#[trigger] b[j])@) by {
            assert(in_names(a, b[j]@));
            let i = choose|i: int| 0 <= i < a.len() && (#[trigger] a[i])@ == b[j]@;
            assert(av[i] == a[i]@);
        }
        assert(same_name_views(av, b));
    }
    if same_name_views(av, b) {
        assert forall|i: int| 0 <= i < a.len() implies in_names(b, (#[trigger] a[i])@) by {
            assert(av[i] == a[i]@);
            assert(in_names(b, av[i]));
        }
        assert forall|j: int| 0 <= j < b.len() implies in_names(a, (#[trigger] b[j])@) by {
            assert(av.contains(b[j]@));
            let i = choose|i: int| 0 <= i < av.len() && av[i] == b[j]@;
            assert(a[i]@ == av[i]);
        }
        assert(same_names(a, b));
    }
}

/// The child kind whose names are exactly `new_order`'s, the first in
/// string order when several are.
fn child_kind_for_order(b: &BlockDecl, new_order: &Vec<String>) -> (r: Option<String>)
    ensures
        match r {
            Some(k) => order_kind(b.items@, new_order@, k@),
            None => forall|k: Seq<char>| !order_kind(b.items@, new_order@, k),
        },
        r matches Some(k) ==> forall|k2: Seq<char>|
            #[trigger] order_kind(b.items@, new_order@, k2) ==> !crate::text::bytes_lt(
                vstd::utf8::encode_utf8(k2),
                vstd::utf8::encode_utf8(k@),
            ),
{
    let mut best: Option<String> = None;
    let mut i: usize = 0;
    while i < b.items.len()
        invariant
            i <= b.items@.len(),
            match best {
                Some(k) => order_kind(b.items@, new_order@, k@),
                None => forall|j: int|
                    0 <= j < i && #[trigger] b.items@[j] is Block ==> !same_name_views(
                        child_names(b.items@, b.items@[j]->Block_0.kind.name@),
                        new_order@,
                    ),
            },
            best matches Some(k) ==> forall|j: int|
                0 <= j < i && #[trigger] b.items@[j] is Block && same_name_views(
                    child_names(b.items@, b.items@[j]->Block_0.kind.name@),
                    new_order@,
                ) ==> !crate::text::bytes_lt(
                    vstd::utf8::encode_utf8(b.items@[j]->Block_0.kind.name@),
                    vstd::utf8::encode_utf8(k@),
                ),
        decreases b.items@.len() - i,
    {
        match &b.items[i] {
            BlockItem::Block(c) => {
                let kind = c.kind.name.as_str();
                let names = child_order(b, kind);
                proof {
                    lemma_same_names_views(names@, new_order@);
                }
                if same_name_sets(&names, new_order) {
                    let better = match &best {
                        Some(k) => str_lt(kind, k.as_str()),
                        None => true,
                    };
                    if better {
                        let ghost prev = best;
                        best = Some(owned(kind));
                        proof {
                            assert(b.items@[i as int] is Block && b.items@[i as int]->Block_0.kind.name@ == kind@);
                            crate::text::lemma_bytes_lt_irreflexive(vstd::utf8::encode_utf8(kind@));
                            assert forall|j: int|
                                0 <= j < i + 1 && #[trigger] b.items@[j] is Block && same_name_views(
                                    child_names(b.items@, b.items@[j]->Block_0.kind.name@),
                                    new_order@,
                                ) implies !crate::text::bytes_lt(
                                    vstd::utf8::encode_utf8(b.items@[j]->Block_0.kind.name@),
                                    vstd::utf8::encode_utf8(kind@),
                                ) by {
                                if j < i {
                                    if let Some(pk) = prev {
                                        if crate::text::bytes_lt(
                                            vstd::utf8::encode_utf8(b.items@[j]->Block_0.kind.name@),
                                            vstd::utf8::encode_utf8(kind@),
                                        ) {
                                            crate::text::lemma_bytes_lt_transitive(
                                                vstd::utf8::encode_utf8(b.items@[j]->Block_0.kind.name@),
                                                vstd::utf8::encode_utf8(kind@),
                                                vstd::utf8::encode_utf8(pk@),
                                            );
                                        }
                                    }
                                }
                            }
                        }
                    }
                }
            },
            _ => {},
        }
        i = i + 1;
    }
    proof {
        if best is None {
            assert forall|k: Seq<char>| !order_kind(b.items@, new_order@, k) by {
                if order_kind(b.items@, new_order@, k) {
                    let j = choose|j: int|
                        0 <= j < b.items@.len() && #[trigger] b.items@[j] is Block && b.items@[j]->Block_0.kind.name@ == k;
                }
            }
        } else {
            let k = best->0;
            assert forall|k2: Seq<char>| #[trigger] order_kind(b.items@, new_order@, k2) implies !crate::text::bytes_lt(
                vstd::utf8::encode_utf8(k2),
                vstd::utf8::encode_utf8(k@),
            ) by {
                let j = choose|j: int|
                    0 <= j < b.items@.len() && #[trigger] b.items@[j] is Block && b.items@[j]->Block_0.kind.name@ == k2;
            }
        }
    }
    best
}

/// The kind of children a reordering moves: `step` in an event, else the
/// first (in string order) child kind whose names are the new order's.
pub open spec fn reorder_kind(b: BlockDecl, order: Seq<String>) -> Seq<char> {
    if b.kind.name@ == "event"@ {
        "step"@
    } else {
        choose|k: Seq<char>|
            order_kind(b.items@, order, k) && forall|k2: Seq<char>|
                #[trigger] order_kind(b.items@, order, k2) ==> !crate::text::bytes_lt(
                    vstd::utf8::encode_utf8(k2),
                    vstd::utf8::encode_utf8(k),
                )
    }
}

/// Item `it` is a child block of kind `k`.
pub open spec fn is_child_of_kind(it: BlockItem, k: Seq<char>) -> bool {
    it is Block && it->Block_0.kind.name@ == k
}

/// Two kinds that are each first among the same candidates are one kind.
proof fn lemma_first_kind_unique(items: Seq<BlockItem>, order: Seq<String>, k1: Seq<char>, k2: Seq<char>)
    requires
        order_kind(items, order, k1),
        order_kind(items, order, k2),
        !crate::text::bytes_lt(vstd::utf8::encode_utf8(k1), vstd::utf8::encode_utf8(k2)),
        !crate::text::bytes_lt(vstd::utf8::encode_utf8(k2), vstd::utf8::encode_utf8(k1)),
    ensures
        k1 == k2,
{
    broadcast use vstd::utf8::encode_utf8_decode_utf8;

    if vstd::utf8::encode_utf8(k1) != vstd::utf8::encode_utf8(k2) {
        crate::text::lemma_bytes_lt_total(vstd::utf8::encode_utf8(k1), vstd::utf8::encode_utf8(k2));
    }
    assert(vstd::utf8::decode_utf8(vstd::utf8::encode_utf8(k1)) == k1);
    assert(vstd::utf8::decode_utf8(vstd::utf8::encode_utf8(k2)) == k2);
}

/// No name occurs twice in `s`.
pub open spec fn names_distinct(s: Seq<Seq<char>>) -> bool {
    forall|i: int, j: int| 0 <= i < j < s.len() ==> s[i] != s[j]
}

/// A reordering succeeds: there is a kind to reorder, its children's names
/// are the new order's, and no two of those children share a name.
pub open spec fn reorder_ok(b: BlockDecl, order: Seq<String>) -> bool {
    &&& (b.kind.name@ == "event"@ || exists|k: Seq<char>| order_kind(b.items@, order, k))
    &&& same_name_views(child_names(b.items@, reorder_kind(b, order)), order)
    &&& names_distinct(child_names(b.items@, reorder_kind(b, order)))
}

/// The names of `s` in order, each only where it first occurs.
pub open spec fn first_occurrences(s: Seq<Seq<char>>) -> Seq<Seq<char>>
    decreases s.len(),
{
    if s.len() == 0 {
        seq![]
    } else {
        let d = first_occurrences(s.drop_last());
        if d.contains(s.last()) {
            d
        } else {
            d.push(s.last())
        }
    }
}

proof fn lemma_first_occurrences_contains(s: Seq<Seq<char>>, x: Seq<char>)
    ensures
        first_occurrences(s).contains(x) <==> s.contains(x),
    decreases s.len(),
{
    if s.len() > 0 {
        let t = s.drop_last();
        lemma_first_occurrences_contains(t, x);
        let d = first_occurrences(t);
        let f = first_occurrences(s);
        assert(f == d || f == d.push(s.last()));
        if s.contains(x) {
            let q = choose|q: int| 0 <= q < s.len() && s[q] == x;
            if q < s.len() - 1 {
                assert(t[q] == x);
                assert(t.contains(x));
                let w = choose|w: int| 0 <= w < d.len() && d[w] == x;
                assert(f[w] == x);
            } else if d.contains(x) {
                let w = choose|w: int| 0 <= w < d.len() && d[w] == x;
                assert(f[w] == x);
            } else {
                assert(f == d.push(s.last()));
                assert(f[d.len() as int] == x);
            }
        }
        if f.contains(x) {
            let w = choose|w: int| 0 <= w < f.len() && f[w] == x;
            if w < d.len() {
                assert(d[w] == x);
                let q = choose|q: int| 0 <= q < t.len() && t[q] == x;
                assert(s[q] == x);
            } else {
                assert(s[s.len() - 1] == x);
            }
        }
    }
}

proof fn lemma_in_names_views(v: Seq<String>, x: Seq<char>)
    ensures
        in_names(v, x) <==> v.map_values(|t: String| t@).contains(x),
{
    let w = v.map_values(|t: String| t@);
    if in_names(v, x) {
        let j = choose|j: int| 0 <= j < v.len() && (#[trigger] v[j])@ == x;
        assert(w[j] == x);
    }
    if w.contains(x) {
        let j = choose|j: int| 0 <= j < w.len() && w[j] == x;
        assert(v[j]@ == x);
    }
}

/// The display names of `v`.
pub open spec fn display_names(v: Seq<BlockDecl>) -> Seq<Seq<char>> {
    v.map_values(|c: BlockDecl| spec_display_name(c))
}

/// Some entry of `v` is named `n`.
spec fn entry_named(v: Seq<(String, Option<BlockDecl>)>, n: Seq<char>) -> bool {
    exists|j: int| 0 <= j < v.len() && (#[trigger] v[j]).0@ == n
}

/// How many entries of `v` still hold a child.
spec fn held_count(v: Seq<(String, Option<BlockDecl>)>) -> nat
    decreases v.len(),
{
    if v.len() == 0 {
        0
    } else {
        held_count(v.drop_last()) + if v.last().1 is Some {
            1nat
        } else {
            0nat
        }
    }
}

proof fn lemma_held_count_update(v: Seq<(String, Option<BlockDecl>)>, j: int, x: (String, Option<BlockDecl>))
    requires
        0 <= j < v.len(),
    ensures
        held_count(v.update(j, x)) as int == held_count(v) as int - (if v[j].1 is Some {
            1int
        } else {
            0int
        }) + (if x.1 is Some {
            1int
        } else {
            0int
        }),
    decreases v.len(),
{
    let w = v.update(j, x);
    if j == v.len() - 1 {
        assert(w.drop_last() =~= v.drop_last());
    } else {
        assert(w.drop_last() =~= v.drop_last().update(j, x));
        lemma_held_count_update(v.drop_last(), j, x);
    }
}

proof fn lemma_held_count_all(v: Seq<(String, Option<BlockDecl>)>)
    ensures
        (forall|j: int| 0 <= j < v.len() ==> (#[trigger] v[j]).1 is Some) ==> held_count(v) == v.len(),
        (forall|j: int| 0 <= j < v.len() ==> (#[trigger] v[j]).1 is None) ==> held_count(v) == 0,
    decreases v.len(),
{
    if v.len() > 0 {
        lemma_held_count_all(v.drop_last());
        assert(v.last() == v[v.len() - 1]);
    }
}

proof fn lemma_distinct_push(s: Seq<Seq<char>>, n: Seq<char>)
    ensures
        names_distinct(s.push(n)) <==> (names_distinct(s) && !s.contains(n)),
{
    let t = s.push(n);
    if names_distinct(t) {
        assert forall|i: int, j: int| 0 <= i < j < s.len() implies s[i] != s[j] by {
            assert(t[i] == s[i] && t[j] == s[j]);
        }
        if s.contains(n) {
            let k = choose|k: int| 0 <= k < s.len() && s[k] == n;
            assert(t[k] == t[s.len() as int]);
        }
    }
    if names_distinct(s) && !s.contains(n) {
        assert forall|i: int, j: int| 0 <= i < j < t.len() implies t[i] != t[j] by {
            if j == s.len() {
                assert(t[i] == s[i]);
            } else {
                assert(t[i] == s[i] && t[j] == s[j]);
            }
        }
    }
}

proof fn lemma_child_names_prefix(items: Seq<BlockItem>, kind: Seq<char>, i: int)
    requires
        0 <= i <= items.len(),
    ensures
        child_names(items.take(i), kind).len() <= child_names(items, kind).len(),
    decreases items.len(),
{
    if i == items.len() {
        assert(items.take(i) =~= items);
    } else {
        assert(items.drop_last().take(i) =~= items.take(i));
        lemma_child_names_prefix(items.drop_last(), kind, i);
    }
}

/// The children of `items.take(i + 1)` are those of `items.take(i)` and then
/// item `i` when it is one.
proof fn lemma_child_names_step(items: Seq<BlockItem>, kind: Seq<char>, i: int)
    requires
        0 <= i < items.len(),
    ensures
        child_names(items.take(i + 1), kind) == child_names(items.take(i), kind) + match items[i] {
            BlockItem::Block(c) => if c.kind.name@ == kind {
                seq![spec_display_name(c)]
            } else {
                seq![]
            },
            BlockItem::Field(_) => seq![],
        },
{
    assert(items.take(i + 1).drop_last() =~= items.take(i));
    assert(items.take(i + 1).last() == items[i]);
}

/// Reorder the children of the target kind (`step` in an event, else the
/// kind whose names `new_order` lists) into `new_order`.
fn reorder_child_blocks(b: &mut BlockDecl, new_order: &Vec<String>, span: Span) -> (r: Result<(), Diagnostic>)
    ensures
        r matches Err(d) ==> is_replay_error(d, span),
        final(b).span == old(b).span,
        final(b).kind == old(b).kind,
        final(b).name == old(b).name,
        final(b).items@.len() == old(b).items@.len(),
        old(b).kind.name@ == "event"@ && !same_name_views(child_names(old(b).items@, "step"@), new_order@) ==> r is Err,
        old(b).kind.name@ != "event"@ && (forall|k: Seq<char>| !order_kind(old(b).items@, new_order@, k)) ==> r is Err,
        forall|i: int|
            0 <= i < old(b).items@.len() && !is_child_of_kind(old(b).items@[i], reorder_kind(*old(b), new_order@))
                ==> #[trigger] final(b).items@[i] == old(b).items@[i],
        forall|i: int|
            0 <= i < old(b).items@.len() && is_child_of_kind(old(b).items@[i], reorder_kind(*old(b), new_order@))
                ==> is_child_of_kind(#[trigger] final(b).items@[i], reorder_kind(*old(b), new_order@)),
        r is Ok <==> reorder_ok(*old(b), new_order@),
        r is Ok ==> child_names(final(b).items@, reorder_kind(*old(b), new_order@)) == first_occurrences(
            new_order@.map_values(|t: String| t@),
        ),
{
    let ghost b0 = *b;
    let target_kind = if kind_is(b, "event") {
        Some(owned("step"))
    } else {
        child_kind_for_order(b, new_order)
    };
    let target_kind = match target_kind {
        Some(k) => k,
        None => return Err(replay_error(span, owned("reorder_items did not match any child blocks"))),
    };
    let ghost tk = reorder_kind(b0, new_order@);
    proof {
        if b0.kind.name@ != "event"@ {
            let k = target_kind@;
            let c = choose|k: Seq<char>|
                order_kind(b0.items@, new_order@, k) && forall|k2: Seq<char>|
                    #[trigger] order_kind(b0.items@, new_order@, k2) ==> !crate::text::bytes_lt(
                        vstd::utf8::encode_utf8(k2),
                        vstd::utf8::encode_utf8(k),
                    );
            assert(order_kind(b0.items@, new_order@, c));
            lemma_first_kind_unique(b0.items@, new_order@, k, c);
        }
        assert(target_kind@ == tk);
    }
    let existing = child_order(b, target_kind.as_str());
    proof {
        lemma_same_names_views(existing@, new_order@);
        if b0.kind.name@ == "event"@ {
            reveal_strlit("step");
        }
    }
    if !same_name_sets(&existing, new_order) {
        let mut m = owned("reorder_items new_order ");
        let a = debug_list(new_order);
        m.append(a.as_str());
        m.append(" does not match existing `");
        m.append(target_kind.as_str());
        m.append("` children ");
        let e = debug_list(&existing);
        m.append(e.as_str());
        return Err(replay_error(span, m));
    }
    let ghost cn = child_names(b0.items@, tk);
    let ghost has_target = b0.kind.name@ == "event"@ || exists|k: Seq<char>| order_kind(b0.items@, new_order@, k);
    proof {
        assert(existing@.map_values(|t: String| t@) == cn);
        assert(same_name_views(cn, new_order@));
        assert(has_target);
        assert(b0.items@.take(0) =~= Seq::<BlockItem>::empty());
    }
    // The last child of each name, by name.
    let mut by_name: Vec<(String, Option<BlockDecl>)> = Vec::new();
    let mut i: usize = 0;
    while i < b.items.len()
        invariant
            i <= b.items@.len(),
            b.items@ == b0.items@,
            target_kind@ == tk,
            forall|j: int|
                0 <= j < by_name@.len() ==> ((#[trigger] by_name@[j]).1 matches Some(c) && c.kind.name@ == tk && spec_display_name(c)
                    == by_name@[j].0@),
            forall|j1: int, j2: int| 0 <= j1 < j2 < by_name@.len() ==> (#[trigger] by_name@[j1]).0@ != (#[trigger] by_name@[j2]).0@,
            forall|n: Seq<char>| #[trigger] entry_named(by_name@, n) <==> child_names(b0.items@.take(i as int), tk).contains(n),
            by_name@.len() <= child_names(b0.items@.take(i as int), tk).len(),
            (by_name@.len() == child_names(b0.items@.take(i as int), tk).len()) <==> names_distinct(
                child_names(b0.items@.take(i as int), tk),
            ),
        decreases b.items@.len() - i,
    {
        let ghost pre = child_names(b0.items@.take(i as int), tk);
        let ghost bn = by_name@;
        proof {
            lemma_child_names_step(b0.items@, tk, i as int);
        }
        match &b.items[i] {
            BlockItem::Block(c) => {
                if kind_is(c, target_kind.as_str()) {
                    let n = block_name_display(c);
                    let copy = c.clone();
                    proof {
                        assert(child_names(b0.items@.take(i + 1), tk) =~= pre.push(n@));
                        lemma_distinct_push(pre, n@);
                    }
                    match find_named(&by_name, n.as_str()) {
                        Some(j) => {
                            by_name.set(j, (n, Some(copy)));
                            proof {
                                assert(entry_named(bn, bn[j as int].0@));
                                assert(pre.contains(n@));
                                assert forall|m: Seq<char>| #[trigger] entry_named(by_name@, m) <==> pre.push(n@).contains(m) by {
                                    if entry_named(by_name@, m) {
                                        let q = choose|q: int| 0 <= q < by_name@.len() && (#[trigger] by_name@[q]).0@ == m;
                                        assert(bn[q].0@ == m);
                                        assert(entry_named(bn, m));
                                        let w = choose|w: int| 0 <= w < pre.len() && pre[w] == m;
                                        assert(pre.push(n@)[w] == m);
                                    }
                                    if pre.push(n@).contains(m) {
                                        let w = choose|w: int| 0 <= w < pre.push(n@).len() && pre.push(n@)[w] == m;
                                        if w < pre.len() {
                                            assert(pre[w] == m);
                                            assert(pre.contains(m));
                                            assert(entry_named(bn, m));
                                            let q = choose|q: int| 0 <= q < bn.len() && (#[trigger] bn[q]).0@ == m;
                                            assert(by_name@[q].0@ == m);
                                        } else {
                                            assert(by_name@[j as int].0@ == m);
                                        }
                                    }
                                }
                            }
                        },
                        None => {
                            by_name.push((n, Some(copy)));
                            proof {
                                assert(!entry_named(bn, n@));
                                assert(!pre.contains(n@));
                                assert forall|m: Seq<char>| #[trigger] entry_named(by_name@, m) <==> pre.push(n@).contains(m) by {
                                    if entry_named(by_name@, m) {
                                        let q = choose|q: int| 0 <= q < by_name@.len() && (#[trigger] by_name@[q]).0@ == m;
                                        if q < bn.len() {
                                            assert(bn[q].0@ == m);
                                            assert(entry_named(bn, m));
                                            let w = choose|w: int| 0 <= w < pre.len() && pre[w] == m;
                                            assert(pre.push(n@)[w] == m);
                                        } else {
                                            assert(pre.push(n@)[pre.len() as int] == m);
                                        }
                                    }
                                    if pre.push(n@).contains(m) {
                                        let w = choose|w: int| 0 <= w < pre.push(n@).len() && pre.push(n@)[w] == m;
                                        if w < pre.len() {
                                            assert(pre[w] == m);
                                            assert(pre.contains(m));
                                            assert(entry_named(bn, m));
                                            let q = choose|q: int| 0 <= q < bn.len() && (#[trigger] bn[q]).0@ == m;
                                            assert(by_name@[q].0@ == m);
                                        } else {
                                            assert(by_name@[bn.len() as int].0@ == m);
                                        }
                                    }
                                }
                                assert forall|j1: int, j2: int| 0 <= j1 < j2 < by_name@.len() implies (#[trigger] by_name@[j1]).0@
                                    != (#[trigger] by_name@[j2]).0@ by {
                                    if j2 == bn.len() {
                                        assert(by_name@[j1] == bn[j1]);
                                    } else {
                                        assert(by_name@[j1] == bn[j1] && by_name@[j2] == bn[j2]);
                                    }
                                }
                            }
                        },
                    }
                } else {
                    proof {
                        assert(child_names(b0.items@.take(i + 1), tk) =~= pre);
                    }
                }
            },
            _ => {
                proof {
                    assert(child_names(b0.items@.take(i + 1), tk) =~= pre);
                }
            },
        }
        i = i + 1;
    }
    let ghost nb = by_name@.len();
    let ghost nv = new_order@.map_values(|t: String| t@);
    proof {
        assert(nv.take(0) =~= Seq::<Seq<char>>::empty());
        assert(display_names(Seq::<BlockDecl>::empty()) =~= Seq::<Seq<char>>::empty());
        assert(b0.items@.take(b0.items@.len() as int) =~= b0.items@);
        lemma_held_count_all(by_name@);
        assert(held_count(by_name@) == nb);
        assert(new_order@.take(0) =~= Seq::<String>::empty());
    }
    // Take each listed name's child once, in the new order.
    let mut ordered: Vec<BlockDecl> = Vec::new();
    let mut k: usize = 0;
    while k < new_order.len()
        invariant
            k <= new_order@.len(),
            target_kind@ == tk,
            by_name@.len() == nb,
            forall|j: int|
                0 <= j < by_name@.len() ==> ((#[trigger] by_name@[j]).1 matches Some(c) ==> c.kind.name@ == tk && spec_display_name(c)
                    == by_name@[j].0@),
            forall|j: int| 0 <= j < ordered@.len() ==> (#[trigger] ordered@[j]).kind.name@ == tk,
            forall|j1: int, j2: int| 0 <= j1 < j2 < by_name@.len() ==> (#[trigger] by_name@[j1]).0@ != (#[trigger] by_name@[j2]).0@,
            forall|n: Seq<char>| #[trigger] entry_named(by_name@, n) <==> cn.contains(n),
            ordered@.len() + held_count(by_name@) == nb,
            forall|j: int| 0 <= j < by_name@.len() && (#[trigger] by_name@[j]).1 is Some ==> !in_names(new_order@.take(k as int), by_name@[j].0@),
            forall|j: int| 0 <= j < by_name@.len() && (#[trigger] by_name@[j]).1 is None ==> in_names(new_order@.take(k as int), by_name@[j].0@),
            same_name_views(cn, new_order@),
            nv == new_order@.map_values(|t: String| t@),
            display_names(ordered@) == first_occurrences(nv.take(k as int)),
        decreases new_order@.len() - k,
    {
        let ghost bn = by_name@;
        let ghost nk = new_order@[k as int]@;
        let ghost od = ordered@;
        proof {
            assert forall|m: Seq<char>| m != nk && !in_names(new_order@.take(k as int), m) implies !in_names(new_order@.take(k + 1), m) by {
                if in_names(new_order@.take(k + 1), m) {
                    let q = choose|q: int| 0 <= q < new_order@.take(k + 1).len() && (#[trigger] new_order@.take(k + 1)[q])@ == m;
                    if q < k {
                        assert(new_order@.take(k as int)[q] == new_order@.take(k + 1)[q]);
                    }
                }
            }
            assert forall|m: Seq<char>| in_names(new_order@.take(k as int), m) implies in_names(new_order@.take(k + 1), m) by {
                let q = choose|q: int| 0 <= q < new_order@.take(k as int).len() && (#[trigger] new_order@.take(k as int)[q])@ == m;
                assert(new_order@.take(k + 1)[q] == new_order@.take(k as int)[q]);
            }
            assert(new_order@.take(k + 1)[k as int]@ == nk);
            assert(in_names(new_order@.take(k + 1), nk));
            assert(nv.take(k as int) =~= new_order@.take(k as int).map_values(|t: String| t@));
            lemma_in_names_views(new_order@.take(k as int), nk);
            lemma_first_occurrences_contains(nv.take(k as int), nk);
            assert(nv.take(k + 1).drop_last() =~= nv.take(k as int));
            assert(nv.take(k + 1).last() == nk);
            assert(cn.contains(nk));
            assert(entry_named(bn, nk));
        }
        match find_named(&by_name, new_order[k].as_str()) {
            Some(j) => {
                let entry = by_name.remove(j);
                let (n, child) = entry;
                match child {
                    Some(c) => {
                        ordered.push(c);
                    },
                    None => {},
                }
                by_name.insert(j, (n, None));
                proof {
                    assert(by_name@ =~= bn.update(j as int, (n, None::<BlockDecl>)));
                    lemma_held_count_update(bn, j as int, (n, None::<BlockDecl>));
                    assert forall|m: Seq<char>| #[trigger] entry_named(by_name@, m) <==> entry_named(bn, m) by {
                        if entry_named(by_name@, m) {
                            let q = choose|q: int| 0 <= q < by_name@.len() && (#[trigger] by_name@[q]).0@ == m;
                            assert(bn[q].0@ == m);
                        }
                        if entry_named(bn, m) {
                            let q = choose|q: int| 0 <= q < bn.len() && (#[trigger] bn[q]).0@ == m;
                            assert(by_name@[q].0@ == m);
                        }
                    }
                    assert forall|j1: int, j2: int| 0 <= j1 < j2 < by_name@.len() implies (#[trigger] by_name@[j1]).0@
                        != (#[trigger] by_name@[j2]).0@ by {
                        assert(by_name@[j1].0@ == bn[j1].0@ && by_name@[j2].0@ == bn[j2].0@);
                    }
                    assert forall|q: int| 0 <= q < by_name@.len() && (#[trigger] by_name@[q]).1 is Some implies !in_names(
                        new_order@.take(k + 1),
                        by_name@[q].0@,
                    ) by {
                        assert(q != j);
                        assert(by_name@[q] == bn[q]);
                        assert(bn[q].0@ != bn[j as int].0@);
                    }
                    assert forall|q: int| 0 <= q < by_name@.len() && (#[trigger] by_name@[q]).1 is None implies in_names(
                        new_order@.take(k + 1),
                        by_name@[q].0@,
                    ) by {
                        if q != j {
                            assert(by_name@[q] == bn[q]);
                        }
                    }
                    if bn[j as int].1 is Some {
                        assert(!in_names(new_order@.take(k as int), nk));
                        assert(first_occurrences(nv.take(k + 1)) == first_occurrences(nv.take(k as int)).push(nk));
                        assert(ordered@ == od.push(bn[j as int].1->0));
                        assert(display_names(ordered@) =~= display_names(od).push(nk));
                    } else {
                        assert(in_names(new_order@.take(k as int), nk));
                        assert(first_occurrences(nv.take(k + 1)) == first_occurrences(nv.take(k as int)));
                        assert(ordered@ == od);
                    }
                }
            },
            None => {
                proof {
                    assert forall|q: int| 0 <= q < by_name@.len() && (#[trigger] by_name@[q]).1 is Some implies !in_names(
                        new_order@.take(k + 1),
                        by_name@[q].0@,
                    ) by {
                        assert(by_name@[q].0@ != nk);
                    }
                }
            },
        }
        k = k + 1;
    }
    proof {
        assert(new_order@.take(new_order@.len() as int) =~= new_order@);
        assert forall|j: int| 0 <= j < by_name@.len() implies (#[trigger] by_name@[j]).1 is None by {
            assert(entry_named(by_name@, by_name@[j].0@));
            assert(cn.contains(by_name@[j].0@));
            let w = choose|w: int| 0 <= w < cn.len() && cn[w] == by_name@[j].0@;
            assert(in_names(new_order@, cn[w]));
        }
        lemma_held_count_all(by_name@);
        assert(ordered@.len() == nb);
        assert(b0.items@.take(0) =~= Seq::<BlockItem>::empty());
    }
    let ghost fo = first_occurrences(nv);
    proof {
        assert(nv.take(nv.len() as int) =~= nv);
        assert(b.items@.take(0) =~= Seq::<BlockItem>::empty());
        assert(child_names(b.items@.take(0), tk) + display_names(ordered@) =~= fo);
    }
    // Put them back in place of the target children.
    let mut i: usize = 0;
    while i < b.items.len()
        invariant
            i <= b.items@.len(),
            b0 == *old(b),
            b.span == b0.span,
            b.kind == b0.kind,
            b.name == b0.name,
            b.items@.len() == b0.items@.len(),
            target_kind@ == tk,
            tk == reorder_kind(b0, new_order@),
            cn == child_names(b0.items@, tk),
            has_target,
            has_target == (b0.kind.name@ == "event"@ || exists|k: Seq<char>| order_kind(b0.items@, new_order@, k)),
            same_name_views(cn, new_order@),
            nb <= cn.len(),
            (nb == cn.len()) <==> names_distinct(cn),
            ordered@.len() + child_names(b0.items@.take(i as int), tk).len() == nb,
            forall|j: int| 0 <= j < ordered@.len() ==> (#[trigger] ordered@[j]).kind.name@ == tk,
            forall|j: int| i <= j < b0.items@.len() ==> #[trigger] b.items@[j] == b0.items@[j],
            forall|j: int|
                0 <= j < b0.items@.len() && !is_child_of_kind(b0.items@[j], tk) ==> #[trigger] b.items@[j] == b0.items@[j],
            forall|j: int|
                0 <= j < b0.items@.len() && is_child_of_kind(b0.items@[j], tk) ==> is_child_of_kind(#[trigger] b.items@[j], tk),
            fo == first_occurrences(new_order@.map_values(|t: String| t@)),
            child_names(b.items@.take(i as int), tk) + display_names(ordered@) == fo,
        decreases b.items@.len() - i,
    {
        let ghost items_before = b.items@;
        let ghost od = ordered@;
        proof {
            lemma_child_names_step(b0.items@, tk, i as int);
            lemma_child_names_step(items_before, tk, i as int);
            assert(b.items@[i as int] == b0.items@[i as int]);
        }
        let hit = match &b.items[i] {
            BlockItem::Block(c) => kind_is(c, target_kind.as_str()),
            _ => false,
        };
        if hit {
            proof {
                assert(child_names(b0.items@.take(i + 1), tk).len() == child_names(b0.items@.take(i as int), tk).len() + 1);
            }
            if ordered.len() == 0 {
                proof {
                    lemma_child_names_prefix(b0.items@, tk, i + 1);
                    assert(!names_distinct(cn));
                    assert(!reorder_ok(b0, new_order@));
                }
                return Err(replay_error(span, owned("reorder_items exhausted ordered children during replay")));
            }
            let next = ordered.remove(0);
            b.items.set(i, BlockItem::Block(next));
            proof {
                let it2 = b.items@;
                lemma_child_names_step(it2, tk, i as int);
                assert(it2.take(i as int) =~= items_before.take(i as int));
                assert(child_names(it2.take(i + 1), tk) == child_names(items_before.take(i as int), tk) + seq![
                    spec_display_name(next),
                ]);
                assert(od == seq![next] + ordered@);
                assert(display_names(od) =~= seq![spec_display_name(next)] + display_names(ordered@));
                assert(child_names(it2.take(i + 1), tk) + display_names(ordered@) =~= child_names(
                    items_before.take(i as int),
                    tk,
                ) + display_names(od));
            }
        } else {
            proof {
                assert(child_names(b0.items@.take(i + 1), tk) =~= child_names(b0.items@.take(i as int), tk));
                assert(child_names(items_before.take(i + 1), tk) =~= child_names(items_before.take(i as int), tk));
            }
        }
        i = i + 1;
    }
    proof {
        assert(b0.items@.take(b0.items@.len() as int) =~= b0.items@);
        assert(b.items@.take(b.items@.len() as int) =~= b.items@);
        assert(names_distinct(cn));
        assert(reorder_ok(b0, new_order@));
        assert(ordered@.len() == 0);
        assert(display_names(ordered@) =~= Seq::<Seq<char>>::empty());
        assert(child_names(b.items@, tk) + display_names(ordered@) =~= child_names(b.items@, tk));
    }
    Ok(())
}

/// What an op does at the end of its block path.
pub enum PathAction {
    Modify { field_name: String, value: FieldValue },
    Remove { field_name: String },
    Reorder { new_order: Vec<String> },
}

/// Some field of `items` has the key `name`.
pub open spec fn has_field(items: Seq<BlockItem>, name: Seq<char>) -> bool {
    exists|j: int| 0 <= j < items.len() && #[trigger] items[j] is Field && items[j]->Field_0.key.name@ == name
}

/// The items `b` are `a` with the field keyed `name` set to `value`: the
/// first such field keeps its span and key and takes the value, and when
/// there is none a new field is appended.
pub open spec fn field_set(a: Seq<BlockItem>, b: Seq<BlockItem>, name: Seq<char>, value: FieldValue) -> bool {
    if has_field(a, name) {
        let j = first_field(a, name);
        &&& b.len() == a.len()
        &&& forall|k: int| 0 <= k < a.len() && k != j ==> b[k] == a[k]
        &&& b[j] matches BlockItem::Field(f) && f.span == a[j]->Field_0.span && f.key == a[j]->Field_0.key && f.value
            == value
    } else {
        &&& one_more(a, b)
        &&& b.last() matches BlockItem::Field(f) && f.span == no_span() && f.key.span == no_span() && f.key.name@
            == name && f.value == value
    }
}

/// What applying `act` to a block's items `a` does: `b` are the items after
/// it and `r` the outcome. A modification always applies; a removal needs
/// the field and takes out its first occurrence; a reordering may fail.
pub open spec fn action_effect(a: Seq<BlockItem>, b: Seq<BlockItem>, act: PathAction, r: Result<(), Diagnostic>) -> bool {
    match act {
        PathAction::Modify { field_name, value } => r is Ok && field_set(a, b, field_name@, value),
        PathAction::Remove { field_name } => if has_field(a, field_name@) {
            r is Ok && b == a.remove(first_field(a, field_name@))
        } else {
            r is Err && b == a
        },
        PathAction::Reorder { .. } => true,
    }
}

/// What applying `act` along `path[d..]` from the items `a` does: when the
/// path leads nowhere nothing changes and the op fails; otherwise only the
/// block on the path changes, keeping its span, kind and name, and the
/// action applies at the path's end.
pub open spec fn path_rel(
    a: Seq<BlockItem>,
    b: Seq<BlockItem>,
    path: Seq<BlockPathSegment>,
    d: int,
    act: PathAction,
    r: Result<(), Diagnostic>,
) -> bool
    decreases path.len() - d,
{
    if d < 0 || d >= path.len() || !has_block(a, path[d].kind@, path[d].name@) {
        b == a && r is Err
    } else {
        let i = first_block(a, path[d].kind@, path[d].name@);
        let ab = a[i]->Block_0;
        &&& b.len() == a.len()
        &&& forall|k: int| 0 <= k < a.len() && k != i ==> b[k] == a[k]
        &&& b[i] is Block
        &&& b[i]->Block_0.span == ab.span && b[i]->Block_0.kind == ab.kind && b[i]->Block_0.name == ab.name
        &&& if d + 1 == path.len() {
            action_effect(ab.items@, b[i]->Block_0.items@, act, r)
        } else {
            path_rel(ab.items@, b[i]->Block_0.items@, path, d + 1, act, r)
        }
    }
}

fn apply_at_block(b: &mut BlockDecl, act: PathAction, span: Span) -> (r: Result<(), Diagnostic>)
    ensures
        r matches Err(d) ==> is_replay_error(d, span),
        final(b).span == old(b).span,
        final(b).kind == old(b).kind,
        final(b).name == old(b).name,
        action_effect(old(b).items@, final(b).items@, act, r),
{
    let ghost b0 = b.items@;
    match act {
        PathAction::Modify { field_name, value } => {
            match field_index(&b.items, field_name.as_str()) {
                Some(i) => {
                    proof {
                        lemma_first_field(b0, field_name@, i as int);
                    }
                    let old = b.items.remove(i);
                    match old {
                        BlockItem::Field(f) => {
                            b.items.insert(i, BlockItem::Field(Field { span: f.span, key: f.key, value }));
                        },
                        BlockItem::Block(x) => {
                            b.items.insert(i, BlockItem::Block(x));
                        },
                    }
                    assert forall|k: int| 0 <= k < b0.len() && k != i implies b.items@[k] == b0[k] by {
                        if k < i {
                        } else {
                        }
                    }
                },
                None => {
                    b.items.push(
                        BlockItem::Field(Field { span: Span::dummy(), key: dummy_ident(field_name.as_str()), value }),
                    );
                    assert(b.items@.drop_last() =~= b0);
                },
            }
            Ok(())
        },
        PathAction::Remove { field_name } => {
            match field_index(&b.items, field_name.as_str()) {
                Some(i) => {
                    proof {
                        lemma_first_field(b0, field_name@, i as int);
                    }
                    let _ = b.items.remove(i);
                    Ok(())
                },
                None => Err(
                    replay_error(span, cat3("remove_field target `", field_name.as_str(), "` does not exist")),
                ),
            }
        },
        PathAction::Reorder { new_order } => reorder_child_blocks(b, &new_order, span),
    }
}

/// Find the block at `path[d..]` among `items` and apply `act` to it.
fn apply_in_items(
    items: &mut Vec<BlockItem>,
    path: &Vec<BlockPathSegment>,
    d: usize,
    act: PathAction,
    span: Span,
) -> (r: Result<(), Diagnostic>)
    requires
        d < path@.len(),
    ensures
        r matches Err(d) ==> is_replay_error(d, span),
        path_rel(old(items)@, final(items)@, path@, d as int, act, r),
    decreases path@.len() - d,
{
    let ghost items0 = items@;
    let plen = path.len();
    let seg = &path[d];
    let idx = block_index(items, seg.kind.as_str(), seg.name.as_str());
    let i = match idx {
        Some(i) => i,
        None => {
            return Err(
                replay_error(
                    span,
                    cat5("block_path segment `", seg.kind.as_str(), " ", seg.name.as_str(), "` does not exist"),
                ),
            );
        },
    };
    proof {
        lemma_first_block(items0, seg.kind@, seg.name@, i as int);
    }
    let it = items.remove(i);
    match it {
        BlockItem::Block(mut b) => {
            assert(items0[i as int] == BlockItem::Block(b));
            let r = if d + 1 == plen {
                apply_at_block(&mut b, act, span)
            } else {
                apply_in_items(&mut b.items, path, d + 1, act, span)
            };
            items.insert(i, BlockItem::Block(b));
            assert forall|k: int| 0 <= k < items0.len() && k != i implies items@[k] == items0[k] by {
                if k < i {
                } else {
                }
            }
            r
        },
        BlockItem::Field(f) => {
            items.insert(i, BlockItem::Field(f));
            Err(replay_error(span, owned("block_path segment is not a block")))
        },
    }
}

/// The file `f1` is `f0` with its slice's items changed by applying `act`
/// along `path`; without a slice or a path nothing changes and the op fails.
pub open spec fn path_applies(
    f0: File,
    f1: File,
    path: Seq<BlockPathSegment>,
    act: PathAction,
    r: Result<(), Diagnostic>,
) -> bool {
    match f0.slice {
        None => f1 == f0 && r is Err,
        Some(s) => if path.len() == 0 {
            f1 == f0 && r is Err
        } else {
            f1.slice matches Some(s1) && with_items(f0, f1, s1.items@) && path_rel(s.items@, s1.items@, path, 0, act, r)
        },
    }
}

fn apply_at_path(file: &mut File, path: &Vec<BlockPathSegment>, act: PathAction, span: Span) -> (r: Result<
    (),
    Diagnostic,
>)
    ensures
        r matches Err(d) ==> is_replay_error(d, span),
        path_applies(*old(file), *final(file), path@, act, r),
{
    let mut slice = match file.slice.take() {
        Some(s) => s,
        None => return Err(replay_error(span, owned("revision replay cursor has no slice declaration"))),
    };
    if path.len() == 0 {
        file.slice = Some(slice);
        return Err(replay_error(span, owned("revision op has an empty block_path")));
    }
    let r = apply_in_items(&mut slice.items, path, 0, act, span);
    file.slice = Some(slice);
    r
}

fn usize_text(n: usize) -> (r: String) {
    u64_text(n as u64)
}

/// The file `f1` is `f0` with its slice's items now `items`.
pub open spec fn with_items(f0: File, f1: File, items: Seq<BlockItem>) -> bool {
    &&& f1.span == f0.span
    &&& match (f0.slice, f1.slice) {
        (Some(s0), Some(s1)) => s1.span == s0.span && s1.name == s0.name && s1.imports == s0.imports && s1.items@
            == items,
        _ => false,
    }
}

/// `b` is `a` with one more element at the end.
pub open spec fn one_more<T>(a: Seq<T>, b: Seq<T>) -> bool {
    b.len() == a.len() + 1 && b.drop_last() == a
}

/// The dummy span replayed declarations carry.
pub open spec fn no_span() -> Span {
    Span { start: 0, end: 0 }
}

/// An empty block of kind `kind` named with the identifier `id`.
pub open spec fn empty_ident_block(it: BlockItem, kind: Seq<char>, id: Seq<char>) -> bool {
    &&& it matches BlockItem::Block(b)
    &&& b.span == no_span() && b.kind.span == no_span() && b.kind.name@ == kind && b.items@.len() == 0
    &&& b.name matches Some(BlockName::Ident(i)) && i.span == no_span() && i.name@ == id
}

fn import_index(imports: &Vec<Import>, alias: &str) -> (r: Option<usize>)
    ensures
        match r {
            Some(i) => is_first_import(imports@, alias@, i as int),
            None => !exists|i: int| is_first_import(imports@, alias@, i),
        },
{
    let mut i: usize = 0;
    while i < imports.len()
        invariant
            i <= imports@.len(),
            forall|j: int| 0 <= j < i ==> (#[trigger] imports@[j]).alias.name@ != alias@,
        decreases imports@.len() - i,
    {
        if str_eq(imports[i].alias.name.as_str(), alias) {
            return Some(i);
        }
        i = i + 1;
    }
    proof {
        assert forall|k: int| !is_first_import(imports@, alias@, k) by {
            if 0 <= k < imports@.len() {
                assert(imports@[k].alias.name@ != alias@);
            }
        }
    }
    None
}

/// The first import of `imports` with alias `alias`.
pub open spec fn is_first_import(imports: Seq<Import>, alias: Seq<char>, i: int) -> bool {
    &&& 0 <= i < imports.len()
    &&& imports[i].alias.name@ == alias
    &&& forall|j: int| 0 <= j < i ==> (#[trigger] imports[j]).alias.name@ != alias
}

/// What applying `op` at `span` to the replay cursor `f0` does: `f1` is the
/// cursor after it and `r` the outcome.
pub open spec fn op_applies(f0: File, f1: File, op: SemanticPatchOp, r: Result<(), Diagnostic>, span: Span) -> bool {
    &&& (r matches Err(d) ==> is_replay_error(d, span))
    &&& match op {
        SemanticPatchOp::GenesisFromMaterializedView { source_hash, byte_len, line_count } => {
            let p = spec_canonical_projection(f0);
            &&& f1 == f0
            &&& (r is Ok <==> (spec_source_sha256(p) == source_hash@ && vstd::utf8::encode_utf8(p).len() == byte_len
                && spec_line_count(p) == line_count))
        },
        SemanticPatchOp::AddSlice { id, .. } => {
            &&& f1 == f0
            &&& (r is Ok <==> (f0.slice matches Some(s) && s.name.name@ == id@))
        },
        SemanticPatchOp::AddImport { alias, path, .. } => match f0.slice {
            None => f1 == f0 && r is Err,
            Some(s) => if exists|i: int| is_first_import(s.imports@, alias@, i) {
                &&& f1 == f0
                &&& (r is Ok <==> exists|i: int| is_first_import(s.imports@, alias@, i) && s.imports@[i].path@ == path@)
            } else {
                &&& r is Ok
                &&& f1.span == f0.span
                &&& f1.slice matches Some(s1)
                &&& s1.span == s.span && s1.name == s.name && s1.items == s.items
                &&& one_more(s.imports@, s1.imports@)
                &&& s1.imports@.last().alias.name@ == alias@ && s1.imports@.last().path@ == path@
                &&& s1.imports@.last().span == no_span() && s1.imports@.last().path_span == no_span()
                &&& s1.imports@.last().alias.span == no_span()
            },
        },
        SemanticPatchOp::AddWalk { walk, .. } => match f0.slice {
            None => f1 == f0 && r is Err,
            Some(s) => if has_block(s.items@, "walk"@, int_text(walk as int)) {
                f1 == f0 && r is Err
            } else {
                &&& r is Ok
                &&& exists|it: BlockItem| with_items(f0, f1, s.items@.push(it)) && (it matches BlockItem::Block(b) && b.span
                    == no_span() && b.kind.span == no_span() && b.kind.name@ == "walk"@ && b.items@.len() == 0 && b.name
                    == Some(BlockName::Int { span: no_span(), value: walk }))
            },
        },
        SemanticPatchOp::AddDeclaration { kind, id, .. } => match f0.slice {
            None => f1 == f0 && r is Err,
            Some(s) => if has_block(s.items@, kind@, id@) {
                f1 == f0 && r is Err
            } else {
                &&& r is Ok
                &&& exists|it: BlockItem| with_items(f0, f1, s.items@.push(it)) && empty_ident_block(it, kind@, id@)
            },
        },
        SemanticPatchOp::AddStep { event, id, .. } => match f0.slice {
            None => f1 == f0 && r is Err,
            Some(s) => if !has_block(s.items@, "event"@, event@) {
                f1 == f0 && r is Err
            } else {
                let ei = first_block(s.items@, "event"@, event@);
                let ev = s.items@[ei]->Block_0;
                if has_block(ev.items@, "step"@, id@) {
                    with_items(f0, f1, s.items@) && r is Err
                } else {
                    &&& r is Ok
                    &&& exists|ev1: BlockDecl, st: BlockItem|
                        {
                            &&& with_items(f0, f1, s.items@.update(ei, BlockItem::Block(ev1)))
                            &&& ev1.span == ev.span && ev1.kind == ev.kind && ev1.name == ev.name
                            &&& ev1.items@ == ev.items@.push(st)
                            &&& empty_ident_block(st, "step"@, id@)
                        }
                }
            },
        },
        SemanticPatchOp::AddBlock { kind, name, .. } => {
            &&& (match f0.slice {
                None => r is Err,
                Some(s) => has_block(s.items@, kind@, name@) ==> r is Err,
            })
            &&& (r is Err ==> f1 == f0)
            &&& (r is Ok ==> (f0.slice matches Some(s) && exists|it: BlockItem| #[trigger] with_items(f0, f1, s.items@.push(it))
                && it is Block))
        },
        SemanticPatchOp::RemoveBlock { kind, name } => match f0.slice {
            None => f1 == f0 && r is Err,
            Some(s) => if has_block(s.items@, kind@, name@) {
                r is Ok && with_items(f0, f1, s.items@.remove(first_block(s.items@, kind@, name@)))
            } else {
                f1 == f0 && r is Err
            },
        },
        SemanticPatchOp::ModifyField { block_path, field_name, .. } => {
            ||| (r is Err && f1 == f0)
            ||| exists|n: String, v: FieldValue|
                n@ == field_name@ && #[trigger] path_applies(
                    f0,
                    f1,
                    block_path@,
                    PathAction::Modify { field_name: n, value: v },
                    r,
                )
        },
        SemanticPatchOp::RemoveField { block_path, field_name } => exists|n: String|
            n@ == field_name@ && #[trigger] path_applies(f0, f1, block_path@, PathAction::Remove { field_name: n }, r),
        SemanticPatchOp::ReorderItems { block_path, .. } => if path_targets_walks(block_path@) {
            r matches Err(d) && d.code == codes::E_REV_REORDER_FORBIDDEN_ON_WALKS && f1 == f0
        } else {
            exists|o: Vec<String>| #[trigger] path_applies(f0, f1, block_path@, PathAction::Reorder { new_order: o }, r)
        },
    }
}

/// Apply one op to the replay cursor.
pub fn apply_revision_op(file: &mut File, op: &SemanticPatchOp, span: Span) -> (r: Result<(), Diagnostic>)
    ensures
        op_applies(*old(file), *final(file), *op, r, span),
{
    let ghost f0 = *file;
    match op {
        SemanticPatchOp::GenesisFromMaterializedView { source_hash, byte_len, line_count: expected_lines } => {
            let projection = canonical_source_projection(file);
            let replay_hash = source_sha256(projection.as_str());
            if !str_eq(replay_hash.as_str(), source_hash.as_str()) {
                return Err(
                    replay_error(
                        span,
                        cat4("genesis source_hash ", source_hash.as_str(), " does not match replay cursor ", replay_hash.as_str()),
                    ),
                );
            }
            let len = projection.as_str().as_bytes().len();
            if len != *byte_len {
                let a = usize_text(*byte_len);
                let b = usize_text(len);
                return Err(
                    replay_error(span, cat4("genesis byte_len ", a.as_str(), " does not match replay cursor byte_len ", b.as_str())),
                );
            }
            let actual = line_count(projection.as_str());
            if actual != *expected_lines {
                let a = usize_text(*expected_lines);
                let b = usize_text(actual);
                return Err(
                    replay_error(
                        span,
                        cat4("genesis line_count ", a.as_str(), " does not match replay cursor line_count ", b.as_str()),
                    ),
                );
            }
            Ok(())
        },
        SemanticPatchOp::AddSlice { id, .. } => {
            match &file.slice {
                Some(slice) => {
                    if !str_eq(slice.name.name.as_str(), id.as_str()) {
                        return Err(
                            replay_error(
                                span,
                                cat5("add_slice id `", id.as_str(), "` does not match replay slice `", slice.name.name.as_str(), "`"),
                            ),
                        );
                    }
                    Ok(())
                },
                None => Err(replay_error(span, owned("revision replay cursor has no slice declaration"))),
            }
        },
        SemanticPatchOp::AddImport { alias, path, .. } => {
            let mut slice = match file.slice.take() {
                Some(s) => s,
                None => return Err(replay_error(span, owned("revision replay cursor has no slice declaration"))),
            };
            let ghost s0 = slice;
            let mut r: Result<(), Diagnostic> = Ok(());
            let mut found = false;
            match import_index(&slice.imports, alias.as_str()) {
                Some(i) => {
                    found = true;
                    if !str_eq(slice.imports[i].path.as_str(), path.as_str()) {
                        r = Err(
                            replay_error(
                                span,
                                cat5("add_import alias `", alias.as_str(), "` already points to `", slice.imports[i].path.as_str(), "`"),
                            ),
                        );
                    }
                    proof {
                        assert forall|k: int| is_first_import(s0.imports@, alias@, k) implies k == i by {
                            if k < i {
                                assert(s0.imports@[k].alias.name@ != alias@);
                            }
                            if i < k {
                                assert(s0.imports@[i as int].alias.name@ != alias@);
                            }
                        }
                    }
                },
                None => {},
            }
            if !found {
                let ghost before = slice.imports@;
                slice.imports.push(
                    Import { span: Span::dummy(), path: owned(path.as_str()), path_span: Span::dummy(), alias: dummy_ident(alias.as_str()) },
                );
                assert(slice.imports@.drop_last() =~= before);
            }
            file.slice = Some(slice);
            r
        },
        SemanticPatchOp::AddWalk { walk, .. } => {
            let mut slice = match file.slice.take() {
                Some(s) => s,
                None => return Err(replay_error(span, owned("revision replay cursor has no slice declaration"))),
            };
            let ghost s0 = slice;
            let w = i64_text(*walk);
            let r = match block_index(&slice.items, "walk", w.as_str()) {
                Some(k) => {
                    proof {
                        lemma_first_block(s0.items@, "walk"@, w@, k as int);
                    }
                    Err(replay_error(span, cat3("add_walk target `", w.as_str(), "` already exists")))
                },
                None => {
                    let item = BlockItem::Block(
                        empty_block("walk", Some(BlockName::Int { span: Span::dummy(), value: *walk })),
                    );
                    let ghost g = item;
                    slice.items.push(item);
                    proof {
                        assert(!has_block(s0.items@, "walk"@, w@));
                        assert(slice.items@ == s0.items@.push(g));
                    }
                    Ok(())
                },
            };
            file.slice = Some(slice);
            r
        },
        SemanticPatchOp::AddDeclaration { kind, id, .. } => {
            let mut slice = match file.slice.take() {
                Some(s) => s,
                None => return Err(replay_error(span, owned("revision replay cursor has no slice declaration"))),
            };
            let ghost s0 = slice;
            let r = match block_index(&slice.items, kind.as_str(), id.as_str()) {
                Some(k) => {
                    proof {
                        lemma_first_block(s0.items@, kind@, id@, k as int);
                    }
                    Err(replay_error(span, cat5("add_declaration target `", kind.as_str(), " ", id.as_str(), "` already exists")))
                },
                None => {
                    let item = BlockItem::Block(empty_block(kind.as_str(), Some(BlockName::Ident(dummy_ident(id.as_str())))));
                    let ghost g = item;
                    slice.items.push(item);
                    proof {
                        assert(!has_block(s0.items@, kind@, id@));
                        assert(slice.items@ == s0.items@.push(g));
                        assert(empty_ident_block(g, kind@, id@));
                    }
                    Ok(())
                },
            };
            file.slice = Some(slice);
            r
        },
        SemanticPatchOp::AddStep { event, id, .. } => {
            let mut slice = match file.slice.take() {
                Some(s) => s,
                None => return Err(replay_error(span, owned("revision replay cursor has no slice declaration"))),
            };
            let ghost s0 = slice;
            let r = match block_index(&slice.items, "event", event.as_str()) {
                None => {
                    proof {
                        assert(!has_block(s0.items@, "event"@, event@));
                    }
                    Err(replay_error(span, cat3("add_step target event `", event.as_str(), "` does not exist")))
                },
                Some(ei) => {
                    proof {
                        lemma_first_block(s0.items@, "event"@, event@, ei as int);
                    }
                    let it = slice.items.remove(ei);
                    match it {
                        BlockItem::Block(mut ev) => {
                            let ghost ev0 = ev;
                            let r = match block_index(&ev.items, "step", id.as_str()) {
                                Some(k) => {
                                    proof {
                                        lemma_first_block(ev0.items@, "step"@, id@, k as int);
                                    }
                                    Err(replay_error(span, cat5("add_step target `", event.as_str(), ".", id.as_str(), "` already exists")))
                                },
                                None => {
                                    let st = BlockItem::Block(empty_block("step", Some(BlockName::Ident(dummy_ident(id.as_str())))));
                                    let ghost g = st;
                                    ev.items.push(st);
                                    proof {
                                        assert(!has_block(ev0.items@, "step"@, id@));
                                        assert(empty_ident_block(g, "step"@, id@));
                                        assert(ev.items@ == ev0.items@.push(g));
                                    }
                                    Ok(())
                                },
                            };
                            let ghost ev1 = ev;
                            slice.items.insert(ei, BlockItem::Block(ev));
                            proof {
                                assert(slice.items@ =~= s0.items@.update(ei as int, BlockItem::Block(ev1)));
                                if r is Err {
                                    assert(ev1 == ev0);
                                    assert(s0.items@[ei as int] == BlockItem::Block(ev0));
                                    assert(slice.items@ =~= s0.items@);
                                }
                            }
                            r
                        },
                        BlockItem::Field(f) => {
                            slice.items.insert(ei, BlockItem::Field(f));
                            Err(replay_error(span, cat3("add_step target event `", event.as_str(), "` does not exist")))
                        },
                    }
                },
            };
            file.slice = Some(slice);
            r
        },
        SemanticPatchOp::AddBlock { kind, name, items } => {
            let block = match parse_replay_block(kind.as_str(), name.as_str(), items, span) {
                Ok(b) => b,
                Err(d) => return Err(d),
            };
            let mut slice = match file.slice.take() {
                Some(s) => s,
                None => return Err(replay_error(span, owned("revision replay cursor has no slice declaration"))),
            };
            let ghost s0 = slice;
            let ghost mut pushed: Option<BlockItem> = None;
            let r = match block_index(&slice.items, kind.as_str(), name.as_str()) {
                Some(k) => {
                    Err(replay_error(span, cat5("add_block target `", kind.as_str(), " ", name.as_str(), "` already exists")))
                },
                None => {
                    let item = BlockItem::Block(block);
                    let ghost g = item;
                    slice.items.push(item);
                    proof {
                        assert(slice.items@ == s0.items@.push(g));
                        pushed = Some(g);
                    }
                    Ok(())
                },
            };
            file.slice = Some(slice);
            proof {
                match pushed {
                    Some(g) => {
                        assert(with_items(f0, *file, s0.items@.push(g)));
                    },
                    None => {},
                }
            }
            r
        },
        SemanticPatchOp::RemoveBlock { kind, name } => {
            let mut slice = match file.slice.take() {
                Some(s) => s,
                None => return Err(replay_error(span, owned("revision replay cursor has no slice declaration"))),
            };
            let ghost s0 = slice;
            let r = match block_index(&slice.items, kind.as_str(), name.as_str()) {
                None => {
                    proof {
                        assert(!has_block(s0.items@, kind@, name@));
                    }
                    Err(replay_error(span, cat5("remove_block target `", kind.as_str(), " ", name.as_str(), "` does not exist")))
                },
                Some(i) => {
                    proof {
                        lemma_first_block(s0.items@, kind@, name@, i as int);
                    }
                    let _ = slice.items.remove(i);
                    Ok(())
                },
            };
            file.slice = Some(slice);
            r
        },
        SemanticPatchOp::ModifyField { block_path, field_name, value } => {
            let v = match parse_replay_field_value(field_name.as_str(), value.as_str(), span) {
                Ok(v) => v,
                Err(d) => return Err(d),
            };
            let n = owned(field_name.as_str());
            let ghost act = PathAction::Modify { field_name: n, value: v };
            let r = apply_at_path(file, block_path, PathAction::Modify { field_name: n, value: v }, span);
            assert(path_applies(f0, *file, block_path@, act, r));
            r
        },
        SemanticPatchOp::RemoveField { block_path, field_name } => {
            let n = owned(field_name.as_str());
            let ghost act = PathAction::Remove { field_name: n };
            let r = apply_at_path(file, block_path, PathAction::Remove { field_name: n }, span);
            assert(path_applies(f0, *file, block_path@, act, r));
            r
        },
        SemanticPatchOp::ReorderItems { block_path, new_order } => {
            if reorder_targets_walk_path(block_path) {
                return Err(
                    Diagnostic::error(
                        codes::E_REV_REORDER_FORBIDDEN_ON_WALKS,
                        span,
                        owned("ReorderItems may not target walk declarations"),
                    ),
                );
            }
            let o = new_order.clone();
            let ghost act = PathAction::Reorder { new_order: o };
            let r = apply_at_path(file, block_path, PathAction::Reorder { new_order: o }, span);
            assert(path_applies(f0, *file, block_path@, act, r));
            r
        },
    }
}

/// Applying `op` at `span` to `f0` succeeds and gives `f1`.
pub open spec fn op_ok(f0: File, f1: File, op: SemanticPatchOp, span: Span) -> bool {
    exists|r: Result<(), Diagnostic>| r is Ok && #[trigger] op_applies(f0, f1, op, r, span)
}

/// `states` are the cursors that applying `ops` in order at `span` passes
/// through, from `f0` to `f1`, each op succeeding.
pub open spec fn is_ops_trace(states: Seq<File>, f0: File, ops: Seq<SemanticPatchOp>, span: Span, f1: File) -> bool {
    &&& states.len() == ops.len() + 1
    &&& states[0] == f0
    &&& states.last() == f1
    &&& forall|i: int| 0 <= i < ops.len() ==> #[trigger] op_ok(states[i], states[i + 1], ops[i], span)
}

/// Applying `ops` in order at `span` succeeds from `f0` and ends at `f1`.
pub open spec fn ops_apply(f0: File, ops: Seq<SemanticPatchOp>, span: Span, f1: File) -> bool {
    exists|states: Seq<File>| #[trigger] is_ops_trace(states, f0, ops, span, f1)
}

/// One revision replays from `f0` to `f1`: its ops all apply, and the
/// projection then hashes to its `result_hash`.
pub open spec fn revision_replays(f0: File, rev: InlineRevision, f1: File) -> bool {
    &&& ops_apply(f0, rev.summary.ops@, rev.span, f1)
    &&& spec_source_sha256(spec_canonical_projection(f1)) == rev.summary.result_hash@
}

/// `states` are the cursors that replaying `revs` in order passes through.
pub open spec fn is_chain_trace(states: Seq<File>, f0: File, revs: Seq<InlineRevision>, f1: File) -> bool {
    &&& states.len() == revs.len() + 1
    &&& states[0] == f0
    &&& states.last() == f1
    &&& forall|i: int| 0 <= i < revs.len() ==> #[trigger] revision_replays(states[i], revs[i], states[i + 1])
}

/// Replaying `revs` in order from `f0` succeeds and ends at `f1`.
pub open spec fn chain_apply(f0: File, revs: Seq<InlineRevision>, f1: File) -> bool {
    exists|states: Seq<File>| #[trigger] is_chain_trace(states, f0, revs, f1)
}

/// Replay a chain's ops from the empty projection; the final projection, or
/// the first failure.
pub fn replay_revisions(file: &File, revisions: &Vec<InlineRevision>) -> (r: Result<String, Diagnostic>)
    ensures
        r matches Err(d) ==> d.severity == Severity::Error && (d.code == codes::E_REV_REPLAY_FAILED || d.code
            == codes::E_REV_REORDER_FORBIDDEN_ON_WALKS),
        r matches Ok(p) ==> exists|c0: File, c1: File|
            #[trigger] chain_apply(c0, revisions@, c1) && p@ == spec_canonical_projection(c1),
{
    let empty = empty_projection_for_file(file);
    let mut cursor = parser::parse(empty.as_str()).file;
    let ghost c0 = cursor;
    let ghost mut chain: Seq<File> = seq![cursor];
    let mut k: usize = 0;
    while k < revisions.len()
        invariant
            k <= revisions@.len(),
            is_chain_trace(chain, c0, revisions@.take(k as int), cursor),
        decreases revisions@.len() - k,
    {
        let rev = &revisions[k];
        let ops = &rev.summary.ops;
        let ghost start = cursor;
        let ghost mut trace: Seq<File> = seq![cursor];
        let mut j: usize = 0;
        while j < ops.len()
            invariant
                j <= ops@.len(),
                is_ops_trace(trace, start, ops@.take(j as int), rev.span, cursor),
            decreases ops@.len() - j,
        {
            let ghost before = cursor;
            let res = apply_revision_op(&mut cursor, &ops[j], rev.span);
            if let Err(d) = res {
                return Err(d);
            }
            proof {
                assert(op_ok(before, cursor, ops@[j as int], rev.span));
                let t0 = trace;
                trace = trace.push(cursor);
                let tk = ops@.take(j + 1);
                assert forall|i: int| 0 <= i < tk.len() implies #[trigger] op_ok(trace[i], trace[i + 1], tk[i], rev.span) by {
                    if i < j {
                        assert(trace[i] == t0[i] && trace[i + 1] == t0[i + 1]);
                        assert(tk[i] == ops@.take(j as int)[i]);
                    }
                }
            }
            j = j + 1;
        }
        proof {
            assert(ops@.take(j as int) =~= ops@);
            assert(ops_apply(start, ops@, rev.span, cursor));
        }
        let projection = canonical_source_projection(&cursor);
        let replay_hash = source_sha256(projection.as_str());
        if !str_eq(replay_hash.as_str(), rev.summary.result_hash.as_str()) {
            let n = u64_text(rev.summary.revision_number);
            let mut m = cat3("revision ", n.as_str(), " ops replay to ");
            m.append(replay_hash.as_str());
            m.append(", not declared result_hash ");
            m.append(rev.summary.result_hash.as_str());
            let d = replay_error(rev.span, m).with_hint(
                owned("the semantic patch ops must explain the full revision hash transition"),
            );
            return Err(d);
        }
        proof {
            assert(revision_replays(start, revisions@[k as int], cursor));
            let c = chain;
            chain = chain.push(cursor);
            let rk = revisions@.take(k + 1);
            assert forall|i: int| 0 <= i < rk.len() implies #[trigger] revision_replays(chain[i], rk[i], chain[i + 1]) by {
                if i < k {
                    assert(chain[i] == c[i] && chain[i + 1] == c[i + 1]);
                    assert(rk[i] == revisions@.take(k as int)[i]);
                }
            }
        }
        k = k + 1;
    }
    proof {
        assert(revisions@.take(k as int) =~= revisions@);
        assert(chain_apply(c0, revisions@, cursor));
    }
    Ok(canonical_source_projection(&cursor))
}

} // verus!
