//! Human-readable renderings of a parsed slice.
//!
//! - [`render_markdown`]: a narrative document answering "what does this
//!   slice say?" without reading the DSL;
//! - [`render_mermaid`]: a Mermaid graph of cells, derived values, events
//!   and the `derives_from` / `mutates` / `kill_test` / `constrains`
//!   edges between them;
//! - their working-set forms, [`render_markdown_aggregate`] and
//!   [`render_mermaid_aggregate`].
//!
//! Renderers walk the AST only and produce a string.

use vstd::prelude::*;

use crate::analysis::diff::spec_string_field;
use crate::analysis::loader::{LoadedFile, WorkingSet, alias_target, resolved_get, spec_path_key};
use crate::analysis::nav::{
    field_value, kind_is, nested_block, spec_block_name_ident, spec_field_ident, spec_field_is_true,
    spec_field_value, spec_nested_block,
};
use crate::analysis::render_text::{
    list_idents_inline, map_chars, md_char, md_escape, mermaid_char, mermaid_escape, mid, mid_char,
    label_char, pmid, pretty_label, quote, spec_list_inline, spec_pmid, spec_quote, spec_value_inline,
    value_inline,
};
use crate::ast::{BlockDecl, BlockItem, BlockName, FieldValue, File, MapEntry, SliceDecl};
use crate::text::{i64_text, int_text, owned, str_eq};

pub use crate::analysis::render_aggregate::{render_markdown_aggregate, render_mermaid_aggregate};
pub use crate::analysis::render_graph::render_mermaid;

verus! {

// ---------------------------------------------------------------------------
// Shared pieces
// ---------------------------------------------------------------------------

/// The block's identifier name, or `fallback`.
pub open spec fn name_or(b: BlockDecl, fallback: Seq<char>) -> Seq<char> {
    match spec_block_name_ident(b) {
        Some(i) => i.name@,
        None => fallback,
    }
}

/// The name of the block's `key:` identifier field, or `fallback`.
pub open spec fn ident_or(b: BlockDecl, key: Seq<char>, fallback: Seq<char>) -> Seq<char> {
    match spec_field_ident(b, key) {
        Some(i) => i.name@,
        None => fallback,
    }
}

pub open spec fn string_or(b: BlockDecl, key: Seq<char>, fallback: Seq<char>) -> Seq<char> {
    match spec_string_field(b, key) {
        Some(s) => s,
        None => fallback,
    }
}

/// The inline form of the block's `key:` field, or `fallback`.
pub open spec fn inline_or(b: BlockDecl, key: Seq<char>, fallback: Seq<char>) -> Seq<char> {
    match spec_field_value(b, key) {
        Some(v) => spec_value_inline(v),
        None => fallback,
    }
}

/// The identifiers of the block's `key:` list, inline.
pub open spec fn list_field(b: BlockDecl, key: Seq<char>) -> Seq<char> {
    match spec_field_value(b, key) {
        Some(FieldValue::List { items, .. }) => spec_list_inline(items@),
        _ => seq![],
    }
}

/// `f` of every block of kind `kind` among `items`, in order.
pub open spec fn blocks_text(items: Seq<BlockItem>, kind: Seq<char>, f: spec_fn(BlockDecl) -> Seq<char>) -> Seq<char>
    decreases items.len(),
{
    if items.len() == 0 {
        seq![]
    } else {
        blocks_text(items.drop_last(), kind, f) + match items.last() {
            BlockItem::Block(b) => if b.kind.name@ == kind {
                f(b)
            } else {
                seq![]
            },
            _ => seq![],
        }
    }
}

/// Some block of kind `kind` is among `items`.
pub open spec fn has_kind(items: Seq<BlockItem>, kind: Seq<char>) -> bool
    decreases items.len(),
{
    items.len() > 0 && (has_kind(items.drop_last(), kind) || (items.last() is Block && items.last()->Block_0.kind.name@
        == kind))
}

/// A section: `header`, each block's text, `trailer`; nothing when there
/// is no block of the kind.
#[verifier::opaque]
pub open spec fn section(
    items: Seq<BlockItem>,
    kind: Seq<char>,
    header: Seq<char>,
    f: spec_fn(BlockDecl) -> Seq<char>,
    trailer: Seq<char>,
) -> Seq<char> {
    if has_kind(items, kind) {
        header + blocks_text(items, kind, f) + trailer
    } else {
        seq![]
    }
}

pub proof fn lemma_prefix(items: Seq<BlockItem>, i: int)
    requires
        0 <= i < items.len(),
    ensures
        items.subrange(0, i + 1).drop_last() == items.subrange(0, i),
        items.subrange(0, i + 1).last() == items[i],
{
    assert(items.subrange(0, i + 1).drop_last() =~= items.subrange(0, i));
}

pub fn has_kind_exec(items: &Vec<BlockItem>, kind: &str) -> (r: bool)
    ensures
        r == has_kind(items@, kind@),
{
    let mut found = false;
    let mut i: usize = 0;
    while i < items.len()
        invariant
            i <= items@.len(),
            found == has_kind(items@.subrange(0, i as int), kind@),
        decreases items@.len() - i,
    {
        proof {
            lemma_prefix(items@, i as int);
        }
        match &items[i] {
            BlockItem::Block(b) => {
                if kind_is(b, kind) {
                    found = true;
                }
            },
            _ => {},
        }
        i = i + 1;
    }
    assert(items@.subrange(0, items@.len() as int) =~= items@);
    found
}

pub fn name_or_text<'a>(b: &'a BlockDecl, fallback: &'a str) -> (r: &'a str)
    ensures
        r@ == name_or(*b, fallback@),
{
    match &b.name {
        Some(BlockName::Ident(i)) => i.name.as_str(),
        _ => fallback,
    }
}

pub fn ident_or_text<'a>(b: &'a BlockDecl, key: &str, fallback: &'a str) -> (r: &'a str)
    ensures
        r@ == ident_or(*b, key@, fallback@),
{
    match field_value(b, key) {
        Some(FieldValue::Ident(i)) => i.name.as_str(),
        _ => fallback,
    }
}

fn string_field_text(b: &BlockDecl, key: &str) -> (r: Option<String>)
    ensures
        match r {
            Some(s) => spec_string_field(*b, key@) == Some(s@),
            None => spec_string_field(*b, key@) is None,
        },
{
    match field_value(b, key) {
        Some(FieldValue::String { value, .. }) => Some(owned(value.as_str())),
        _ => None,
    }
}

fn string_or_text(b: &BlockDecl, key: &str, fallback: &str) -> (r: String)
    ensures
        r@ == string_or(*b, key@, fallback@),
{
    match string_field_text(b, key) {
        Some(s) => s,
        None => owned(fallback),
    }
}

pub fn inline_or_text(b: &BlockDecl, key: &str, fallback: &str) -> (r: String)
    ensures
        r@ == inline_or(*b, key@, fallback@),
{
    match field_value(b, key) {
        Some(v) => value_inline(v),
        None => owned(fallback),
    }
}

fn list_field_text(b: &BlockDecl, key: &str) -> (r: String)
    ensures
        r@ == list_field(*b, key@),
{
    match field_value(b, key) {
        Some(FieldValue::List { items, .. }) => list_idents_inline(items),
        _ => String::new(),
    }
}

/// `prefix` + the inline value of `key:` + `suffix`, when the field is there.
pub open spec fn opt_inline_line(b: BlockDecl, key: Seq<char>, prefix: Seq<char>, suffix: Seq<char>) -> Seq<char> {
    match spec_field_value(b, key) {
        Some(v) => prefix + spec_value_inline(v) + suffix,
        None => seq![],
    }
}

fn push_opt_inline(out: &mut String, b: &BlockDecl, key: &str, prefix: &str, suffix: &str)
    ensures
        final(out)@ == old(out)@ + opt_inline_line(*b, key@, prefix@, suffix@),
{
    match field_value(b, key) {
        Some(v) => {
            out.append(prefix);
            let t = value_inline(v);
            out.append(t.as_str());
            out.append(suffix);
        },
        None => {},
    }
}

/// `prefix` + the string value of `key:` + `suffix`, when it is a string.
pub open spec fn opt_string_line(b: BlockDecl, key: Seq<char>, prefix: Seq<char>, suffix: Seq<char>) -> Seq<char> {
    match spec_string_field(b, key) {
        Some(s) => prefix + s + suffix,
        None => seq![],
    }
}

fn push_opt_string(out: &mut String, b: &BlockDecl, key: &str, prefix: &str, suffix: &str)
    ensures
        final(out)@ == old(out)@ + opt_string_line(*b, key@, prefix@, suffix@),
{
    match string_field_text(b, key) {
        Some(s) => {
            out.append(prefix);
            out.append(s.as_str());
            out.append(suffix);
        },
        None => {},
    }
}

/// `prefix` + the quoted string value of `key:` + `\n`, when it is a string.
pub open spec fn opt_quote_line(b: BlockDecl, key: Seq<char>, prefix: Seq<char>) -> Seq<char> {
    match spec_string_field(b, key) {
        Some(s) => prefix + spec_quote(s) + "\n"@,
        None => seq![],
    }
}

fn push_opt_quote(out: &mut String, b: &BlockDecl, key: &str, prefix: &str)
    ensures
        final(out)@ == old(out)@ + opt_quote_line(*b, key@, prefix@),
{
    match string_field_text(b, key) {
        Some(s) => {
            out.append(prefix);
            let q = quote(s.as_str());
            out.append(q.as_str());
            out.append("\n");
        },
        None => {},
    }
}

/// `prefix` + the identifiers of the `key:` list + `\n`, when the list
/// renders to something.
pub open spec fn opt_list_line(b: BlockDecl, key: Seq<char>, prefix: Seq<char>) -> Seq<char> {
    match spec_field_value(b, key) {
        Some(FieldValue::List { items, .. }) => if spec_list_inline(items@).len() > 0 {
            prefix + spec_list_inline(items@) + "\n"@
        } else {
            seq![]
        },
        _ => seq![],
    }
}

fn push_opt_list(out: &mut String, b: &BlockDecl, key: &str, prefix: &str)
    ensures
        final(out)@ == old(out)@ + opt_list_line(*b, key@, prefix@),
{
    match field_value(b, key) {
        Some(FieldValue::List { items, .. }) => {
            let ids = list_idents_inline(items);
            if !ids.as_str().is_empty() {
                out.append(prefix);
                out.append(ids.as_str());
                out.append("\n");
            } else {
                assert(ids@.len() == 0);
            }
        },
        _ => {},
    }
}

// ---------------------------------------------------------------------------
// Markdown
// ---------------------------------------------------------------------------

/// The first anonymous block of kind `kind` at or after `i`.
pub open spec fn anon_block_from(items: Seq<BlockItem>, kind: Seq<char>, i: int) -> Option<BlockDecl>
    decreases items.len() - i,
{
    if i < 0 || i >= items.len() {
        None
    } else if items[i] is Block && items[i]->Block_0.kind.name@ == kind && items[i]->Block_0.name is None {
        Some(items[i]->Block_0)
    } else {
        anon_block_from(items, kind, i + 1)
    }
}

/// `- **key**: value` for each field of a block.
pub open spec fn field_lines(items: Seq<BlockItem>) -> Seq<char>
    decreases items.len(),
{
    if items.len() == 0 {
        seq![]
    } else {
        field_lines(items.drop_last()) + match items.last() {
            BlockItem::Field(f) => "- **"@ + f.key.name@ + "**: "@ + spec_value_inline(f.value) + "\n"@,
            _ => seq![],
        }
    }
}

pub open spec fn md_meta(items: Seq<BlockItem>) -> Seq<char> {
    match anon_block_from(items, "meta"@, 0) {
        Some(m) => "## Meta\n\n"@ + field_lines(m.items@) + "\n"@,
        None => seq![],
    }
}

pub open spec fn walk_number(b: BlockDecl) -> Seq<char> {
    match b.name {
        Some(BlockName::Int { value, .. }) => int_text(value as int),
        _ => "?"@,
    }
}

pub open spec fn md_walk(w: BlockDecl) -> Seq<char> {
    "- **walk "@ + walk_number(w) + "** — "@ + string_or(w, "summary"@, "(no summary)"@) + "\n"@ + opt_list_line(
        w,
        "added"@,
        "  - added: "@,
    ) + opt_list_line(w, "killed"@, "  - killed: "@)
}

pub open spec fn md_cell(c: BlockDecl) -> Seq<char> {
    "- **`"@ + name_or(c, "?"@) + "`** — `"@ + inline_or(c, "type"@, "(no type)"@) + "` ("@ + (if spec_field_is_true(
        c,
        "mutable"@,
    ) {
        "mutable"@
    } else {
        "immutable"@
    }) + ")\n"@ + opt_inline_line(c, "default"@, "  - default: `"@, "`\n"@) + opt_string_line(
        c,
        "ref"@,
        "  - ref: `"@,
        "`\n"@,
    ) + opt_inline_line(c, "cfg"@, "  - cfg: `"@, "`\n"@)
}

pub open spec fn materialised_line(d: BlockDecl) -> Seq<char> {
    match spec_field_value(d, "materialised"@) {
        Some(FieldValue::Bool { value, .. }) => if !value {
            "  - *materialised:* false (computed-on-call)\n"@
        } else {
            seq![]
        },
        _ => seq![],
    }
}

pub open spec fn md_derived(d: BlockDecl) -> Seq<char> {
    "- **`"@ + name_or(d, "?"@) + "`** ← "@ + list_field(d, "derives_from"@) + "\n"@ + opt_quote_line(
        d,
        "derivation"@,
        "  - *derivation:* "@,
    ) + materialised_line(d)
}

pub open spec fn md_association(a: BlockDecl) -> Seq<char> {
    "- **`"@ + name_or(a, "?"@) + "`** over "@ + list_field(a, "over"@) + "\n"@ + opt_quote_line(
        a,
        "invariant"@,
        "  - *invariant:* "@,
    ) + opt_inline_line(a, "enforced_by"@, "  - *enforced by:* `"@, "`\n"@)
}

pub open spec fn or_dash(s: Seq<char>) -> Seq<char> {
    if s.len() == 0 {
        "—"@
    } else {
        s
    }
}

pub open spec fn md_step_row(st: BlockDecl) -> Seq<char> {
    "| `"@ + name_or(st, "?"@) + "` | `"@ + map_chars(string_or(st, "op"@, "—"@), |c: char| md_char(c)) + "` | "@
        + (if spec_field_is_true(st, "fallible"@) {
        "yes"@
    } else {
        "no"@
    }) + " | "@ + or_dash(list_field(st, "mutates"@)) + " | "@ + map_chars(
        string_or(st, "precondition"@, "—"@),
        |c: char| md_char(c),
    ) + " |\n"@
}

pub open spec fn md_event(e: BlockDecl) -> Seq<char> {
    "### `"@ + name_or(e, "?"@) + "`\n\n"@ + opt_quote_line(e, "trigger"@, "- **trigger:** "@) + (if list_field(
        e,
        "mutates"@,
    ).len() > 0 {
        "- **mutates:** "@ + list_field(e, "mutates"@) + "\n"@
    } else {
        seq![]
    }) + opt_inline_line(e, "atomicity"@, "- **atomicity:** `"@, "`\n"@) + opt_inline_line(
        e,
        "serialization"@,
        "- **serialization:** `"@,
        "`\n"@,
    ) + section(
        e.items@,
        "step"@,
        "\n| step | op | fallible | mutates | precondition |\n|---|---|---|---|---|\n"@,
        |st: BlockDecl| md_step_row(st),
        seq![],
    ) + "\n"@
}

/// `  - `key`: `value`` for each field of a block.
pub open spec fn keyed_lines(items: Seq<BlockItem>) -> Seq<char>
    decreases items.len(),
{
    if items.len() == 0 {
        seq![]
    } else {
        keyed_lines(items.drop_last()) + match items.last() {
            BlockItem::Field(f) => "  - `"@ + f.key.name@ + "`: `"@ + spec_value_inline(f.value) + "`\n"@,
            _ => seq![],
        }
    }
}

pub open spec fn cells_variant(pf: BlockDecl, variant: Seq<char>) -> Seq<char> {
    match spec_nested_block(pf, variant) {
        Some(b) => "- **"@ + map_chars(variant, |c: char| label_char(c)) + ":**\n"@ + keyed_lines(b.items@),
        None => seq![],
    }
}

pub open spec fn md_post_failure(pf: BlockDecl) -> Seq<char> {
    "### `"@ + name_or(pf, "?"@) + "` — `"@ + ident_or(pf, "event"@, "?"@) + "."@ + ident_or(pf, "step"@, "?"@)
        + "` → "@ + spec_quote(string_or(pf, "outcome"@, "?"@)) + "\n\n"@ + cells_variant(
        pf,
        "cells_after_pre_rollback"@,
    ) + cells_variant(pf, "cells_after_rollback"@) + cells_variant(pf, "cells_after"@) + opt_inline_line(
        pf,
        "result"@,
        "- **result:** `"@,
        "`\n"@,
    ) + opt_list_line(pf, "invariants_held_after_rollback"@, "- **invariants held after rollback:** "@) + "\n"@
}

/// `  - `key`: `value`` for each entry of a map.
pub open spec fn entry_lines(s: Seq<MapEntry>) -> Seq<char>
    decreases s.len(),
{
    if s.len() == 0 {
        seq![]
    } else {
        entry_lines(s.drop_last()) + "  - `"@ + s.last().key.name@ + "`: `"@ + spec_value_inline(s.last().value)
            + "`\n"@
    }
}

pub open spec fn fs_cells(fs: BlockDecl) -> Seq<char> {
    match spec_field_value(fs, "cells"@) {
        Some(FieldValue::Mapping { entries, .. }) => "- **cells:**\n"@ + entry_lines(entries@),
        _ => seq![],
    }
}

pub open spec fn md_forbidden_state(fs: BlockDecl) -> Seq<char> {
    "### `"@ + name_or(fs, "?"@) + "` — *"@ + ident_or(fs, "reachability"@, "?"@) + "*\n\n"@ + opt_string_line(
        fs,
        "description"@,
        seq![],
        "\n\n"@,
    ) + opt_quote_line(fs, "predicate"@, "- **predicate:** "@) + fs_cells(fs) + opt_inline_line(
        fs,
        "kill_test"@,
        "- **kill_test:** `"@,
        "`\n"@,
    ) + "\n"@
}

pub open spec fn md_kill_test(kt: BlockDecl) -> Seq<char> {
    "### `"@ + name_or(kt, "?"@) + "` — kind: *"@ + ident_or(kt, "kind"@, "?"@) + "*, status: *"@ + ident_or(
        kt,
        "status"@,
        "declared"@,
    ) + "*\n\n"@ + "- **forbidden:** `"@ + ident_or(kt, "forbidden"@, "?"@) + "`\n"@ + opt_quote_line(
        kt,
        "assertion"@,
        "- **assertion:** "@,
    ) + opt_string_line(kt, "ref"@, "- **ref:** `"@, "`\n"@) + "\n"@
}

/// The markdown rendering of a slice's body sections.
pub open spec fn md_sections(items: Seq<BlockItem>) -> Seq<char> {
    md_meta(items) + section(items, "walk"@, "## Walks\n\n"@, |b: BlockDecl| md_walk(b), "\n"@) + section(
        items,
        "cell"@,
        "## Cells\n\n"@,
        |b: BlockDecl| md_cell(b),
        "\n"@,
    ) + section(items, "derived"@, "## Derived\n\n"@, |b: BlockDecl| md_derived(b), "\n"@) + section(
        items,
        "association"@,
        "## Associations\n\n"@,
        |b: BlockDecl| md_association(b),
        "\n"@,
    ) + section(items, "event"@, "## Events\n\n"@, |b: BlockDecl| md_event(b), seq![]) + section(
        items,
        "post_failure"@,
        "## Post-failure rows\n\n"@,
        |b: BlockDecl| md_post_failure(b),
        seq![],
    ) + section(
        items,
        "forbidden_state"@,
        "## Forbidden states\n\n"@,
        |b: BlockDecl| md_forbidden_state(b),
        seq![],
    ) + section(items, "kill_test"@, "## Kill-tests\n\n"@, |b: BlockDecl| md_kill_test(b), seq![])
}

/// What [`render_markdown`] gives.
pub open spec fn spec_render_markdown(file: File) -> Seq<char> {
    match file.slice {
        None => "*(no slice in file)*\n"@,
        Some(s) => "# "@ + s.name.name@ + "\n\n"@ + md_sections(s.items@),
    }
}

/// Which block text a section renders.
#[derive(Clone, Copy, PartialEq, Eq, Structural)]
enum MdPart {
    Walk,
    Cell,
    Derived,
    Association,
    Event,
    PostFailure,
    ForbiddenState,
    KillTest,
}

spec fn md_part_fn(p: MdPart) -> spec_fn(BlockDecl) -> Seq<char> {
    match p {
        MdPart::Walk => |b: BlockDecl| md_walk(b),
        MdPart::Cell => |b: BlockDecl| md_cell(b),
        MdPart::Derived => |b: BlockDecl| md_derived(b),
        MdPart::Association => |b: BlockDecl| md_association(b),
        MdPart::Event => |b: BlockDecl| md_event(b),
        MdPart::PostFailure => |b: BlockDecl| md_post_failure(b),
        MdPart::ForbiddenState => |b: BlockDecl| md_forbidden_state(b),
        MdPart::KillTest => |b: BlockDecl| md_kill_test(b),
    }
}

fn md_part(p: MdPart, b: &BlockDecl, out: &mut String)
    ensures
        final(out)@ == old(out)@ + (md_part_fn(p))(*b),
{
    match p {
        MdPart::Walk => push_md_walk(b, out),
        MdPart::Cell => push_md_cell(b, out),
        MdPart::Derived => push_md_derived(b, out),
        MdPart::Association => push_md_association(b, out),
        MdPart::Event => push_md_event(b, out),
        MdPart::PostFailure => push_md_post_failure(b, out),
        MdPart::ForbiddenState => push_md_forbidden_state(b, out),
        MdPart::KillTest => push_md_kill_test(b, out),
    }
}

/// Append a whole section.
fn push_section(items: &Vec<BlockItem>, kind: &str, header: &str, p: MdPart, trailer: &str, out: &mut String)
    ensures
        final(out)@ == old(out)@ + section(items@, kind@, header@, md_part_fn(p), trailer@),
{
    reveal(section);
    if !has_kind_exec(items, kind) {
        return;
    }
    out.append(header);
    let ghost start = out@;
    let mut i: usize = 0;
    while i < items.len()
        invariant
            i <= items@.len(),
            out@ == start + blocks_text(items@.subrange(0, i as int), kind@, md_part_fn(p)),
        decreases items@.len() - i,
    {
        proof {
            lemma_prefix(items@, i as int);
        }
        match &items[i] {
            BlockItem::Block(b) => {
                if kind_is(b, kind) {
                    md_part(p, b, out);
                }
            },
            _ => {},
        }
        i = i + 1;
    }
    assert(items@.subrange(0, items@.len() as int) =~= items@);
    out.append(trailer);
}

fn push_md_walk(w: &BlockDecl, out: &mut String)
    ensures
        final(out)@ == old(out)@ + md_walk(*w),
{
    out.append("- **walk ");
    match &w.name {
        Some(BlockName::Int { value, .. }) => {
            let n = i64_text(*value);
            out.append(n.as_str());
        },
        _ => out.append("?"),
    }
    out.append("** — ");
    let summary = string_or_text(w, "summary", "(no summary)");
    out.append(summary.as_str());
    out.append("\n");
    push_opt_list(out, w, "added", "  - added: ");
    push_opt_list(out, w, "killed", "  - killed: ");
}

fn push_md_cell(c: &BlockDecl, out: &mut String)
    ensures
        final(out)@ == old(out)@ + md_cell(*c),
{
    out.append("- **`");
    out.append(name_or_text(c, "?"));
    out.append("`** — `");
    let ty = inline_or_text(c, "type", "(no type)");
    out.append(ty.as_str());
    out.append("` (");
    if crate::analysis::nav::field_is_true(c, "mutable") {
        out.append("mutable");
    } else {
        out.append("immutable");
    }
    out.append(")\n");
    push_opt_inline(out, c, "default", "  - default: `", "`\n");
    push_opt_string(out, c, "ref", "  - ref: `", "`\n");
    push_opt_inline(out, c, "cfg", "  - cfg: `", "`\n");
}

fn push_md_derived(d: &BlockDecl, out: &mut String)
    ensures
        final(out)@ == old(out)@ + md_derived(*d),
{
    out.append("- **`");
    out.append(name_or_text(d, "?"));
    out.append("`** ← ");
    let sources = list_field_text(d, "derives_from");
    out.append(sources.as_str());
    out.append("\n");
    push_opt_quote(out, d, "derivation", "  - *derivation:* ");
    match field_value(d, "materialised") {
        Some(FieldValue::Bool { value, .. }) => {
            if !*value {
                out.append("  - *materialised:* false (computed-on-call)\n");
            }
        },
        _ => {},
    }
}

fn push_md_association(a: &BlockDecl, out: &mut String)
    ensures
        final(out)@ == old(out)@ + md_association(*a),
{
    out.append("- **`");
    out.append(name_or_text(a, "?"));
    out.append("`** over ");
    let over = list_field_text(a, "over");
    out.append(over.as_str());
    out.append("\n");
    push_opt_quote(out, a, "invariant", "  - *invariant:* ");
    push_opt_inline(out, a, "enforced_by", "  - *enforced by:* `", "`\n");
}

fn push_md_step_row(st: &BlockDecl, out: &mut String)
    ensures
        final(out)@ == old(out)@ + md_step_row(*st),
{
    out.append("| `");
    out.append(name_or_text(st, "?"));
    out.append("` | `");
    let op = string_or_text(st, "op", "—");
    let op_e = md_escape(op.as_str());
    out.append(op_e.as_str());
    out.append("` | ");
    if crate::analysis::nav::field_is_true(st, "fallible") {
        out.append("yes");
    } else {
        out.append("no");
    }
    out.append(" | ");
    let mutates = list_field_text(st, "mutates");
    if mutates.as_str().is_empty() {
        out.append("—");
    } else {
        out.append(mutates.as_str());
    }
    out.append(" | ");
    let pre = string_or_text(st, "precondition", "—");
    let pre_e = md_escape(pre.as_str());
    out.append(pre_e.as_str());
    out.append(" |\n");
}

fn push_step_rows(e: &BlockDecl, out: &mut String)
    ensures
        final(out)@ == old(out)@ + section(
            e.items@,
            "step"@,
            "\n| step | op | fallible | mutates | precondition |\n|---|---|---|---|---|\n"@,
            |st: BlockDecl| md_step_row(st),
            seq![],
        ),
{
    reveal(section);
    let items = &e.items;
    if !has_kind_exec(items, "step") {
        return;
    }
    out.append("\n| step | op | fallible | mutates | precondition |\n|---|---|---|---|---|\n");
    let ghost start = out@;
    let mut i: usize = 0;
    while i < items.len()
        invariant
            i <= items@.len(),
            items@ == e.items@,
            out@ == start + blocks_text(items@.subrange(0, i as int), "step"@, |st: BlockDecl| md_step_row(st)),
        decreases items@.len() - i,
    {
        proof {
            lemma_prefix(items@, i as int);
        }
        match &items[i] {
            BlockItem::Block(b) => {
                if kind_is(b, "step") {
                    push_md_step_row(b, out);
                }
            },
            _ => {},
        }
        i = i + 1;
    }
    assert(items@.subrange(0, items@.len() as int) =~= items@);
    assert(out@ =~= start + blocks_text(items@, "step"@, |st: BlockDecl| md_step_row(st)) + seq![]);
}

fn push_md_event(e: &BlockDecl, out: &mut String)
    ensures
        final(out)@ == old(out)@ + md_event(*e),
{
    out.append("### `");
    out.append(name_or_text(e, "?"));
    out.append("`\n\n");
    push_opt_quote(out, e, "trigger", "- **trigger:** ");
    let mutates = list_field_text(e, "mutates");
    if !mutates.as_str().is_empty() {
        out.append("- **mutates:** ");
        out.append(mutates.as_str());
        out.append("\n");
    }
    push_opt_inline(out, e, "atomicity", "- **atomicity:** `", "`\n");
    push_opt_inline(out, e, "serialization", "- **serialization:** `", "`\n");
    push_step_rows(e, out);
    out.append("\n");
    proof {
        assert(""@ =~= Seq::<char>::empty()) by {
            reveal_strlit("");
        }
    }
}

fn push_keyed_lines(b: &BlockDecl, out: &mut String)
    ensures
        final(out)@ == old(out)@ + keyed_lines(b.items@),
{
    let ghost start = out@;
    let mut i: usize = 0;
    while i < b.items.len()
        invariant
            i <= b.items@.len(),
            out@ == start + keyed_lines(b.items@.subrange(0, i as int)),
        decreases b.items@.len() - i,
    {
        proof {
            lemma_prefix(b.items@, i as int);
        }
        match &b.items[i] {
            BlockItem::Field(f) => {
                out.append("  - `");
                out.append(f.key.name.as_str());
                out.append("`: `");
                let v = value_inline(&f.value);
                out.append(v.as_str());
                out.append("`\n");
            },
            _ => {},
        }
        i = i + 1;
    }
    assert(b.items@.subrange(0, b.items@.len() as int) =~= b.items@);
}

fn push_cells_variant(pf: &BlockDecl, variant: &str, out: &mut String)
    ensures
        final(out)@ == old(out)@ + cells_variant(*pf, variant@),
{
    match nested_block(pf, variant) {
        Some(b) => {
            out.append("- **");
            let label = pretty_label(variant);
            out.append(label.as_str());
            out.append(":**\n");
            push_keyed_lines(b, out);
        },
        None => {},
    }
}

fn push_md_post_failure(pf: &BlockDecl, out: &mut String)
    ensures
        final(out)@ == old(out)@ + md_post_failure(*pf),
{
    out.append("### `");
    out.append(name_or_text(pf, "?"));
    out.append("` — `");
    out.append(ident_or_text(pf, "event", "?"));
    out.append(".");
    out.append(ident_or_text(pf, "step", "?"));
    out.append("` → ");
    let outcome = string_or_text(pf, "outcome", "?");
    let q = quote(outcome.as_str());
    out.append(q.as_str());
    out.append("\n\n");
    push_cells_variant(pf, "cells_after_pre_rollback", out);
    push_cells_variant(pf, "cells_after_rollback", out);
    push_cells_variant(pf, "cells_after", out);
    push_opt_inline(out, pf, "result", "- **result:** `", "`\n");
    push_opt_list(out, pf, "invariants_held_after_rollback", "- **invariants held after rollback:** ");
    out.append("\n");
}

fn push_md_forbidden_state(fs: &BlockDecl, out: &mut String)
    ensures
        final(out)@ == old(out)@ + md_forbidden_state(*fs),
{
    out.append("### `");
    out.append(name_or_text(fs, "?"));
    out.append("` — *");
    out.append(ident_or_text(fs, "reachability", "?"));
    out.append("*\n\n");
    push_opt_string(out, fs, "description", "", "\n\n");
    proof {
        assert(""@ =~= Seq::<char>::empty()) by {
            reveal_strlit("");
        }
    }
    push_opt_quote(out, fs, "predicate", "- **predicate:** ");
    match field_value(fs, "cells") {
        Some(FieldValue::Mapping { entries, .. }) => {
            out.append("- **cells:**\n");
            let ghost start = out@;
            let mut k: usize = 0;
            while k < entries.len()
                invariant
                    k <= entries@.len(),
                    out@ == start + entry_lines(entries@.subrange(0, k as int)),
                decreases entries@.len() - k,
            {
                proof {
                    assert(entries@.subrange(0, k as int + 1).drop_last() =~= entries@.subrange(0, k as int));
                }
                out.append("  - `");
                out.append(entries[k].key.name.as_str());
                out.append("`: `");
                let v = value_inline(&entries[k].value);
                out.append(v.as_str());
                out.append("`\n");
                k = k + 1;
            }
            assert(entries@.subrange(0, entries@.len() as int) =~= entries@);
        },
        _ => {},
    }
    push_opt_inline(out, fs, "kill_test", "- **kill_test:** `", "`\n");
    out.append("\n");
}

fn push_md_kill_test(kt: &BlockDecl, out: &mut String)
    ensures
        final(out)@ == old(out)@ + md_kill_test(*kt),
{
    out.append("### `");
    out.append(name_or_text(kt, "?"));
    out.append("` — kind: *");
    out.append(ident_or_text(kt, "kind", "?"));
    out.append("*, status: *");
    out.append(ident_or_text(kt, "status", "declared"));
    out.append("*\n\n");
    out.append("- **forbidden:** `");
    out.append(ident_or_text(kt, "forbidden", "?"));
    out.append("`\n");
    push_opt_quote(out, kt, "assertion", "- **assertion:** ");
    push_opt_string(out, kt, "ref", "- **ref:** `", "`\n");
    out.append("\n");
}

fn push_md_meta(items: &Vec<BlockItem>, out: &mut String)
    ensures
        final(out)@ == old(out)@ + md_meta(items@),
{
    let mut i: usize = 0;
    while i < items.len()
        invariant
            i <= items@.len(),
            out@ == old(out)@,
            anon_block_from(items@, "meta"@, 0) == anon_block_from(items@, "meta"@, i as int),
        decreases items@.len() - i,
    {
        match &items[i] {
            BlockItem::Block(b) => {
                if kind_is(b, "meta") && b.name.is_none() {
                    assert(items@[i as int] == BlockItem::Block(*b));
                    out.append("## Meta\n\n");
                    let ghost start = out@;
                    let mut k: usize = 0;
                    while k < b.items.len()
                        invariant
                            k <= b.items@.len(),
                            out@ == start + field_lines(b.items@.subrange(0, k as int)),
                        decreases b.items@.len() - k,
                    {
                        proof {
                            lemma_prefix(b.items@, k as int);
                        }
                        match &b.items[k] {
                            BlockItem::Field(f) => {
                                out.append("- **");
                                out.append(f.key.name.as_str());
                                out.append("**: ");
                                let v = value_inline(&f.value);
                                out.append(v.as_str());
                                out.append("\n");
                            },
                            _ => {},
                        }
                        k = k + 1;
                    }
                    assert(b.items@.subrange(0, b.items@.len() as int) =~= b.items@);
                    out.append("\n");
                    return;
                }
            },
            _ => {},
        }
        i = i + 1;
    }
}

fn push_md_sections(items: &Vec<BlockItem>, out: &mut String)
    ensures
        final(out)@ == old(out)@ + md_sections(items@),
{
    proof {
        assert(""@ =~= Seq::<char>::empty()) by {
            reveal_strlit("");
        }
        assert(md_part_fn(MdPart::Walk) == (|b: BlockDecl| md_walk(b)));
        assert(md_part_fn(MdPart::Cell) == (|b: BlockDecl| md_cell(b)));
        assert(md_part_fn(MdPart::Derived) == (|b: BlockDecl| md_derived(b)));
        assert(md_part_fn(MdPart::Association) == (|b: BlockDecl| md_association(b)));
        assert(md_part_fn(MdPart::Event) == (|b: BlockDecl| md_event(b)));
        assert(md_part_fn(MdPart::PostFailure) == (|b: BlockDecl| md_post_failure(b)));
        assert(md_part_fn(MdPart::ForbiddenState) == (|b: BlockDecl| md_forbidden_state(b)));
        assert(md_part_fn(MdPart::KillTest) == (|b: BlockDecl| md_kill_test(b)));
    }
    let ghost s0 = out@;
    let ghost acc: Seq<char> = seq![];
    push_md_meta(items, out);
    proof {
        acc = md_meta(items@);
        assert(out@ == s0 + acc);
    }
    push_section(items, "walk", "## Walks\n\n", MdPart::Walk, "\n", out);
    proof {
        let w = section(items@, "walk"@, "## Walks\n\n"@, md_part_fn(MdPart::Walk), "\n"@);
        assert(out@ =~= s0 + (acc + w));
        acc = acc + w;
    }
    push_section(items, "cell", "## Cells\n\n", MdPart::Cell, "\n", out);
    proof {
        let w = section(items@, "cell"@, "## Cells\n\n"@, md_part_fn(MdPart::Cell), "\n"@);
        assert(out@ =~= s0 + (acc + w));
        acc = acc + w;
    }
    push_section(items, "derived", "## Derived\n\n", MdPart::Derived, "\n", out);
    proof {
        let w = section(items@, "derived"@, "## Derived\n\n"@, md_part_fn(MdPart::Derived), "\n"@);
        assert(out@ =~= s0 + (acc + w));
        acc = acc + w;
    }
    push_section(items, "association", "## Associations\n\n", MdPart::Association, "\n", out);
    proof {
        let w = section(items@, "association"@, "## Associations\n\n"@, md_part_fn(MdPart::Association), "\n"@);
        assert(out@ =~= s0 + (acc + w));
        acc = acc + w;
    }
    push_section(items, "event", "## Events\n\n", MdPart::Event, "", out);
    proof {
        let w = section(items@, "event"@, "## Events\n\n"@, md_part_fn(MdPart::Event), ""@);
        assert(out@ =~= s0 + (acc + w));
        acc = acc + w;
    }
    push_section(items, "post_failure", "## Post-failure rows\n\n", MdPart::PostFailure, "", out);
    proof {
        let w = section(items@, "post_failure"@, "## Post-failure rows\n\n"@, md_part_fn(MdPart::PostFailure), ""@);
        assert(out@ =~= s0 + (acc + w));
        acc = acc + w;
    }
    push_section(items, "forbidden_state", "## Forbidden states\n\n", MdPart::ForbiddenState, "", out);
    proof {
        let w = section(items@, "forbidden_state"@, "## Forbidden states\n\n"@, md_part_fn(MdPart::ForbiddenState), ""@);
        assert(out@ =~= s0 + (acc + w));
        acc = acc + w;
    }
    push_section(items, "kill_test", "## Kill-tests\n\n", MdPart::KillTest, "", out);
    proof {
        let w = section(items@, "kill_test"@, "## Kill-tests\n\n"@, md_part_fn(MdPart::KillTest), ""@);
        assert(out@ =~= s0 + (acc + w));
        acc = acc + w;
        assert(acc == md_sections(items@));
    }
}

/// The slice as a markdown document: title, then the meta, walks, cells,
/// derived, associations, events, post-failure rows, forbidden states and
/// kill-tests sections, each only when the slice has something for it.
pub fn render_markdown(file: &File) -> (r: String)
    ensures
        r@ == spec_render_markdown(*file),
{
    let slice = match &file.slice {
        Some(s) => s,
        None => return owned("*(no slice in file)*\n"),
    };
    let mut out = owned("# ");
    out.append(slice.name.name.as_str());
    out.append("\n\n");
    push_md_sections(&slice.items, &mut out);
    assert(out@ =~= spec_render_markdown(*file));
    out
}

} // verus!
