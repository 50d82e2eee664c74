//! Inline revision support.
//!
//! A slice may carry an append-only `revisions { revision N { ... } }`
//! block. Each revision names the hash of the canonical source projection
//! it produces (`result_hash`), the hash it builds on (`base_hash`), and the
//! semantic patch ops that explain the step. This module owns the canonical
//! source projection and its hash, the genesis report, the parsing and
//! validation of the inline chain (by replaying its ops), and the synthesis
//! of the next revision from an edited source.

use vstd::prelude::*;

use crate::analysis::nav::{field_value, kind_is, spec_field_value};
use crate::ast::{BlockDecl, BlockItem, BlockName, Field, FieldValue, File, Import, MapEntry, SliceDecl};
use crate::diagnostic::Diagnostic;
use crate::span::Span;
use crate::text::{i64_text, int_text, is_lit, owned, push_char, u64_text, chars_of};
use crate::analysis::render_text::map_chars;

use sha2::Digest;

pub mod chain;
pub mod replay;
pub mod synth;

pub use crate::analysis::revisions::chain::{collect_inline_revisions, run};
pub use crate::analysis::revisions::synth::synthesize_revision_source;
use vstd::string::StringSliceAdditionalSpecFns;

verus! {

pub const REVISION_MANIFEST_VERSION: &'static str = "memspec.revision_manifest/0.1-experimental";

pub const PATCH_FORMAT_VERSION: &'static str = "memspec.semantic_patch/0.1-experimental";

// ---------------------------------------------------------------------------
// Reports and ops
// ---------------------------------------------------------------------------

/// What `build_genesis_revision` reports.
#[derive(Debug, Clone)]
pub struct GenesisRevisionReport {
    pub schema_version: String,
    pub source_path: Option<String>,
    pub slice: Option<String>,
    pub memspec_version: Option<String>,
    pub materialized_view: MaterializedViewSummary,
    pub revision: RevisionSummary,
    pub projection: ProjectionSummary,
}

/// What `synthesize_revision_source` reports.
#[derive(Debug, Clone)]
pub struct RevisionAppendReport {
    pub schema_version: String,
    pub source_path: Option<String>,
    pub slice: Option<String>,
    pub appended: bool,
    pub no_op: bool,
    pub message: String,
    pub revisions: Vec<RevisionSummary>,
    pub projection: ProjectionSummary,
    pub file_size: usize,
}

/// Hash, byte length and line count of a source text.
#[derive(Debug, Clone)]
pub struct MaterializedViewSummary {
    pub source_hash: String,
    pub byte_len: usize,
    pub line_count: usize,
}

/// One revision of a chain.
#[derive(Debug, Clone)]
pub struct RevisionSummary {
    pub revision_number: u64,
    pub base_revision: Option<u64>,
    pub base_hash: Option<String>,
    pub result_hash: String,
    pub patch_format_version: String,
    pub reason: String,
    pub author: Option<String>,
    pub ops: Vec<SemanticPatchOp>,
}

/// How many declarations of each kind a slice has.
#[derive(Debug, Clone, Copy, PartialEq, Eq, Structural)]
pub struct ProjectionSummary {
    pub imports: usize,
    pub walks: usize,
    pub cells: usize,
    pub derived: usize,
    pub associations: usize,
    pub events: usize,
    pub steps: usize,
    pub post_failures: usize,
    pub forbidden_states: usize,
    pub kill_tests: usize,
}

impl Default for ProjectionSummary {
    fn default() -> (r: Self)
        ensures
            r == zero_projection(),
    {
        ProjectionSummary {
            imports: 0,
            walks: 0,
            cells: 0,
            derived: 0,
            associations: 0,
            events: 0,
            steps: 0,
            post_failures: 0,
            forbidden_states: 0,
            kill_tests: 0,
        }
    }
}

pub open spec fn zero_projection() -> ProjectionSummary {
    ProjectionSummary {
        imports: 0,
        walks: 0,
        cells: 0,
        derived: 0,
        associations: 0,
        events: 0,
        steps: 0,
        post_failures: 0,
        forbidden_states: 0,
        kill_tests: 0,
    }
}

/// One step of a block path: a block's kind and display name.
#[derive(Debug, Clone)]
pub struct BlockPathSegment {
    pub kind: String,
    pub name: String,
}

/// A semantic patch op.
#[derive(Debug, Clone)]
pub enum SemanticPatchOp {
    GenesisFromMaterializedView { source_hash: String, byte_len: usize, line_count: usize },
    AddSlice { id: String, span: Span },
    AddImport { alias: String, path: String, span: Span },
    AddWalk { walk: i64, span: Span },
    AddDeclaration { kind: String, id: String, span: Span },
    AddStep { event: String, id: String, span: Span },
    AddBlock { kind: String, name: String, items: Vec<String> },
    RemoveBlock { kind: String, name: String },
    ModifyField { block_path: Vec<BlockPathSegment>, field_name: String, value: String },
    RemoveField { block_path: Vec<BlockPathSegment>, field_name: String },
    ReorderItems { block_path: Vec<BlockPathSegment>, new_order: Vec<String> },
}

/// A revision as written in a source, with the span of its block.
#[derive(Debug, Clone)]
pub struct InlineRevision {
    pub span: Span,
    pub summary: RevisionSummary,
}

/// The revisions of a slice's `revisions` block, and what was wrong with
/// them.
#[derive(Debug)]
pub struct InlineRevisionChain {
    pub revisions_block_span: Option<Span>,
    pub revisions: Vec<InlineRevision>,
    pub diagnostics: Vec<Diagnostic>,
}

/// A rewritten source and what was appended to it.
#[derive(Debug)]
pub struct RevisionSynthesis {
    pub new_source: String,
    pub report: RevisionAppendReport,
}

/// Why no revision could be appended.
#[derive(Debug)]
pub struct RevisionSynthesisError {
    pub message: String,
    pub diagnostics: Vec<Diagnostic>,
}

// ---------------------------------------------------------------------------
// Hashing (sha2)
// ---------------------------------------------------------------------------

/// The lower-case hexadecimal SHA-256 digest of a text's UTF-8 bytes.
pub uninterp spec fn sha256_hex(text: Seq<char>) -> Seq<char>;

pub open spec fn is_lower_hex_digit(c: char) -> bool {
    ('0' <= c && c <= '9') || ('a' <= c && c <= 'f')
}

/// SHA-256 of the text's bytes (sha2 `Sha256::new`, `update`,
/// `finalize`), written with `{:x}`. Contract: the result is
/// [`sha256_hex`] of the text, 64 lower-case hex digits (two per digest
/// byte, as generic-array's `LowerHex` writes them).
#[verifier::external_body]
fn sha256_lower_hex(text: &str) -> (r: String)
    ensures
        r@ == sha256_hex(text@),
        r@.len() == 64,
        forall|i: int| 0 <= i < 64 ==> is_lower_hex_digit(#[trigger] r@[i]),
{
    let mut hasher = sha2::Sha256::new();
    hasher.update(text.as_bytes());
    format!("{:x}", hasher.finalize())
}

/// The hash a revision names for a source text: `sha256:` and the hex
/// digest.
pub open spec fn spec_source_sha256(source: Seq<char>) -> Seq<char> {
    "sha256:"@ + sha256_hex(source)
}

/// The canonical hash of a source text.
pub fn source_sha256(source: &str) -> (r: String)
    ensures
        r@ == spec_source_sha256(source@),
{
    let mut r = owned("sha256:");
    let h = sha256_lower_hex(source);
    r.append(h.as_str());
    r
}

// ---------------------------------------------------------------------------
// Lines and sizes
// ---------------------------------------------------------------------------

/// Number of `\n` in `s`.
pub open spec fn newline_count(s: Seq<char>) -> nat
    decreases s.len(),
{
    if s.len() == 0 {
        0
    } else {
        newline_count(s.drop_last()) + if s.last() == '\n' {
            1nat
        } else {
            0nat
        }
    }
}

/// Lines of a text: its newlines, plus one for a last line without one.
pub open spec fn spec_line_count(s: Seq<char>) -> nat {
    if s.len() == 0 {
        0
    } else {
        newline_count(s) + if s.last() != '\n' {
            1nat
        } else {
            0nat
        }
    }
}

proof fn lemma_newline_count_bound(s: Seq<char>)
    ensures
        newline_count(s) <= s.len(),
    decreases s.len(),
{
    if s.len() > 0 {
        lemma_newline_count_bound(s.drop_last());
    }
}

pub fn line_count(source: &str) -> (n: usize)
    ensures
        n == spec_line_count(source@),
{
    let cs = chars_of(source);
    if cs.len() == 0 {
        return 0;
    }
    let mut n: usize = 0;
    let mut i: usize = 0;
    while i < cs.len()
        invariant
            i <= cs@.len(),
            cs@ == source@,
            n == newline_count(source@.subrange(0, i as int)),
            n <= i,
        decreases cs@.len() - i,
    {
        assert(source@.subrange(0, i as int + 1).drop_last() =~= source@.subrange(0, i as int));
        if cs[i] == '\n' {
            n = n + 1;
        }
        i = i + 1;
    }
    assert(source@.subrange(0, cs@.len() as int) =~= source@);
    if cs[cs.len() - 1] != '\n' {
        proof {
            lemma_newline_count_bound(source@.drop_last());
        }
        n = n + 1;
    }
    n
}

// ---------------------------------------------------------------------------
// Canonical source projection
// ---------------------------------------------------------------------------

/// How a character is written inside a quoted string of the projection.
pub open spec fn escape_char(c: char) -> Seq<char> {
    if c == '\\' {
        "\\\\"@
    } else if c == '"' {
        "\\\""@
    } else if c == '\n' {
        "\\n"@
    } else if c == '\r' {
        "\\r"@
    } else if c == '\t' {
        "\\t"@
    } else if c == '\0' {
        "\\0"@
    } else {
        seq![c]
    }
}

/// `s` as a quoted, escaped string.
pub open spec fn spec_quote_string(s: Seq<char>) -> Seq<char> {
    "\""@ + map_chars(s, |c: char| escape_char(c)) + "\""@
}

pub fn quote_string(value: &str) -> (r: String)
    ensures
        r@ == spec_quote_string(value@),
{
    let cs = chars_of(value);
    let mut body = String::new();
    let mut i: usize = 0;
    while i < cs.len()
        invariant
            i <= cs@.len(),
            cs@ == value@,
            body@ == map_chars(value@.subrange(0, i as int), |c: char| escape_char(c)),
        decreases cs@.len() - i,
    {
        proof {
            crate::analysis::render_text::lemma_map_chars_step(value@, i as int, |c: char| escape_char(c));
        }
        let c = cs[i];
        if c == '\\' {
            body.append("\\\\");
        } else if c == '"' {
            body.append("\\\"");
        } else if c == '\n' {
            body.append("\\n");
        } else if c == '\r' {
            body.append("\\r");
        } else if c == '\t' {
            body.append("\\t");
        } else if c == '\0' {
            body.append("\\0");
        } else {
            push_char(&mut body, c);
        }
        assert(body@ =~= map_chars(value@.subrange(0, i as int + 1), |c: char| escape_char(c)));
        i = i + 1;
    }
    assert(value@.subrange(0, cs@.len() as int) =~= value@);
    let mut r = owned("\"");
    r.append(body.as_str());
    r.append("\"");
    r
}

/// A field value as the projection writes it.
pub open spec fn spec_value_to_string(v: FieldValue) -> Seq<char>
    decreases v, 1int,
{
    match v {
        FieldValue::Ident(i) => i.name@,
        FieldValue::String { value, .. } => spec_quote_string(value@),
        FieldValue::Int { value, .. } => int_text(value as int),
        FieldValue::Bool { value, .. } => if value {
            "true"@
        } else {
            "false"@
        },
        FieldValue::List { items, .. } => "["@ + join_strings(items@, ", "@) + "]"@,
        FieldValue::Mapping { entries, .. } => "{ "@ + join_entry_strings(entries@) + " }"@,
        FieldValue::TypeApp { head, params, alternation, .. } => head.name@ + "<"@ + join_strings(
            params@,
            if alternation {
                " | "@
            } else {
                ", "@
            },
        ) + ">"@,
        FieldValue::Call { head, args, .. } => head.name@ + "("@ + join_strings(args@, ", "@) + ")"@,
        FieldValue::QualifiedIdent { alias, name, .. } => alias.name@ + "."@ + name.name@,
    }
}

/// The projected forms of `s`, separated by `sep`.
pub open spec fn join_strings(s: Seq<FieldValue>, sep: Seq<char>) -> Seq<char>
    decreases s, 0int,
{
    if s.len() == 0 {
        seq![]
    } else if s.len() == 1 {
        spec_value_to_string(s[0])
    } else {
        join_strings(s.drop_last(), sep) + sep + spec_value_to_string(s.last())
    }
}

/// `key: value` pairs of a map, separated by `, `.
pub open spec fn join_entry_strings(s: Seq<MapEntry>) -> Seq<char>
    decreases s, 0int,
{
    if s.len() == 0 {
        seq![]
    } else if s.len() == 1 {
        s[0].key.name@ + ": "@ + spec_value_to_string(s[0].value)
    } else {
        join_entry_strings(s.drop_last()) + ", "@ + s.last().key.name@ + ": "@ + spec_value_to_string(s.last().value)
    }
}

#[verifier::loop_isolation(false)]
pub fn value_to_string(value: &FieldValue) -> (r: String)
    ensures
        r@ == spec_value_to_string(*value),
    decreases value,
{
    match value {
        FieldValue::Ident(i) => owned(i.name.as_str()),
        FieldValue::String { value: s, .. } => quote_string(s.as_str()),
        FieldValue::Int { value: n, .. } => i64_text(*n),
        FieldValue::Bool { value: b, .. } => if *b {
            owned("true")
        } else {
            owned("false")
        },
        FieldValue::List { items, .. } => {
            proof {
                assert forall|k: int| 0 <= k < items@.len() implies decreases_to!(*value => #[trigger] items@[k]) by {
                    assert(decreases_to!(*value => *items));
                }
            }
            let mut r = owned("[");
            let inner = join_value_strings(value, items, ", ");
            r.append(inner.as_str());
            r.append("]");
            r
        },
        FieldValue::Mapping { entries, .. } => {
            let mut r = owned("{ ");
            let mut k: usize = 0;
            let ghost start = r@;
            while k < entries.len()
                invariant
                    k <= entries@.len(),
                    r@ == start + join_entry_strings(entries@.subrange(0, k as int)),
                decreases entries@.len() - k,
            {
                proof {
                    assert(entries@.subrange(0, k as int + 1).drop_last() =~= entries@.subrange(0, k as int));
                    assert(decreases_to!(*value => entries@[k as int].value));
                    if k == 0 {
                        assert(entries@.subrange(0, 1)[0] == entries@[0]);
                    }
                }
                if k > 0 {
                    r.append(", ");
                }
                r.append(entries[k].key.name.as_str());
                r.append(": ");
                let v = value_to_string(&entries[k].value);
                r.append(v.as_str());
                k = k + 1;
            }
            assert(entries@.subrange(0, entries@.len() as int) =~= entries@);
            r.append(" }");
            r
        },
        FieldValue::TypeApp { head, params, alternation, .. } => {
            proof {
                assert forall|k: int| 0 <= k < params@.len() implies decreases_to!(*value => #[trigger] params@[k]) by {
                    assert(decreases_to!(*value => *params));
                }
            }
            let mut r = owned(head.name.as_str());
            r.append("<");
            let sep = if *alternation {
                " | "
            } else {
                ", "
            };
            let inner = join_value_strings(value, params, sep);
            r.append(inner.as_str());
            r.append(">");
            r
        },
        FieldValue::Call { head, args, .. } => {
            proof {
                assert forall|k: int| 0 <= k < args@.len() implies decreases_to!(*value => #[trigger] args@[k]) by {
                    assert(decreases_to!(*value => *args));
                }
            }
            let mut r = owned(head.name.as_str());
            r.append("(");
            let inner = join_value_strings(value, args, ", ");
            r.append(inner.as_str());
            r.append(")");
            r
        },
        FieldValue::QualifiedIdent { alias, name, .. } => {
            let mut r = owned(alias.name.as_str());
            r.append(".");
            r.append(name.name.as_str());
            r
        },
    }
}

fn join_value_strings(parent: &FieldValue, vals: &Vec<FieldValue>, sep: &str) -> (r: String)
    requires
        forall|k: int| 0 <= k < vals@.len() ==> decreases_to!(*parent => #[trigger] vals@[k]),
    ensures
        r@ == join_strings(vals@, sep@),
    decreases parent, 0int,
{
    let mut r = String::new();
    let mut k: usize = 0;
    while k < vals.len()
        invariant
            k <= vals@.len(),
            forall|q: int| 0 <= q < vals@.len() ==> decreases_to!(*parent => #[trigger] vals@[q]),
            r@ == join_strings(vals@.subrange(0, k as int), sep@),
        decreases vals@.len() - k,
    {
        proof {
            assert(vals@.subrange(0, k as int + 1).drop_last() =~= vals@.subrange(0, k as int));
            assert(decreases_to!(*parent => vals@[k as int]));
            if k == 0 {
                assert(vals@.subrange(0, 1)[0] == vals@[0]);
            }
        }
        if k > 0 {
            r.append(sep);
        }
        let v = value_to_string(&vals[k]);
        r.append(v.as_str());
        k = k + 1;
    }
    assert(vals@.subrange(0, vals@.len() as int) =~= vals@);
    r
}

/// Two spaces per level.
pub open spec fn indent(depth: nat) -> Seq<char>
    decreases depth,
{
    if depth == 0 {
        seq![]
    } else {
        indent((depth - 1) as nat) + "  "@
    }
}

/// The name a block is written with after its kind, if any.
pub open spec fn name_suffix(b: BlockDecl) -> Seq<char> {
    match b.name {
        Some(BlockName::Ident(i)) => " "@ + i.name@,
        Some(BlockName::Int { value, .. }) => " "@ + int_text(value as int),
        None => seq![],
    }
}

/// A block item as the projection writes it at `depth`.
pub open spec fn spec_render_item(it: BlockItem, depth: nat) -> Seq<char>
    decreases it, 1int,
{
    match it {
        BlockItem::Field(f) => indent(depth) + f.key.name@ + ": "@ + spec_value_to_string(f.value) + "\n"@,
        BlockItem::Block(b) => indent(depth) + b.kind.name@ + name_suffix(b) + " {\n"@ + render_items(
            b.items@,
            depth + 1,
        ) + indent(depth) + "}\n"@,
    }
}

pub open spec fn render_items(s: Seq<BlockItem>, depth: nat) -> Seq<char>
    decreases s, 0int,
{
    if s.len() == 0 {
        seq![]
    } else {
        render_items(s.drop_last(), depth) + spec_render_item(s.last(), depth)
    }
}

/// Append the head line of block `b`: its indentation, kind, name and `{`.
fn push_block_head(b: &BlockDecl, ind: &str, out: &mut String)
    ensures
        final(out)@ == old(out)@ + ind@ + b.kind.name@ + name_suffix(*b) + " {\n"@,
{
    out.append(ind);
    out.append(b.kind.name.as_str());
    match &b.name {
        Some(BlockName::Ident(i)) => {
            out.append(" ");
            out.append(i.name.as_str());
        },
        Some(BlockName::Int { value, .. }) => {
            out.append(" ");
            let t = i64_text(*value);
            out.append(t.as_str());
        },
        None => {},
    }
    out.append(" {\n");
}

/// Append the rendering of `it` at `depth`, `ind` being its indentation.
#[verifier::loop_isolation(false)]
pub fn push_item(it: &BlockItem, ind: &str, Ghost(depth): Ghost<nat>, out: &mut String)
    requires
        ind@ == indent(depth),
    ensures
        final(out)@ == old(out)@ + spec_render_item(*it, depth),
    decreases it,
{
    match it {
        BlockItem::Field(f) => {
            out.append(ind);
            out.append(f.key.name.as_str());
            out.append(": ");
            let v = value_to_string(&f.value);
            out.append(v.as_str());
            out.append("\n");
        },
        BlockItem::Block(b) => {
            let ghost s0 = out@;
            push_block_head(b, ind, out);
            let mut inner = owned(ind);
            inner.append("  ");
            let ghost s1 = out@;
            let mut k: usize = 0;
            while k < b.items.len()
                invariant
                    k <= b.items@.len(),
                    inner@ == indent(depth + 1),
                    out@ == s1 + render_items(b.items@.subrange(0, k as int), depth + 1),
                decreases b.items@.len() - k,
            {
                proof {
                    assert(b.items@.subrange(0, k as int + 1).drop_last() =~= b.items@.subrange(0, k as int));
                    assert(decreases_to!(*it => b.items@[k as int]));
                }
                push_item(&b.items[k], inner.as_str(), Ghost(depth + 1), out);
                k = k + 1;
            }
            assert(b.items@.subrange(0, b.items@.len() as int) =~= b.items@);
            out.append(ind);
            out.append("}\n");
            assert(out@ =~= s0 + spec_render_item(*it, depth));
        },
    }
}

/// A `revisions` block.
pub open spec fn is_revisions_item(it: BlockItem) -> bool {
    it is Block && it->Block_0.kind.name@ == "revisions"@
}

/// Some item is not a `revisions` block.
pub open spec fn has_kept(items: Seq<BlockItem>) -> bool
    decreases items.len(),
{
    items.len() > 0 && (has_kept(items.drop_last()) || !is_revisions_item(items.last()))
}

/// The items other than `revisions` blocks, at depth one, with a blank line
/// between two of them.
pub open spec fn projection_items(items: Seq<BlockItem>) -> Seq<char>
    decreases items.len(),
{
    if items.len() == 0 {
        seq![]
    } else if is_revisions_item(items.last()) {
        projection_items(items.drop_last())
    } else {
        projection_items(items.drop_last()) + (if has_kept(items.drop_last()) {
            "\n"@
        } else {
            seq![]
        }) + spec_render_item(items.last(), 1)
    }
}

/// `  use "<path>" as <alias>` lines.
pub open spec fn import_lines(imports: Seq<Import>) -> Seq<char>
    decreases imports.len(),
{
    if imports.len() == 0 {
        seq![]
    } else {
        import_lines(imports.drop_last()) + "  use "@ + spec_quote_string(imports.last().path@) + " as "@
            + imports.last().alias.name@ + "\n"@
    }
}

/// The canonical projection of a file: its slice header, imports and
/// items, re-written in a fixed layout (two-space indentation, one item
/// per line, strings quoted and escaped), without comments, original
/// formatting or the `revisions` block. Empty without a slice.
pub open spec fn spec_canonical_projection(file: File) -> Seq<char> {
    match file.slice {
        None => seq![],
        Some(s) => "slice "@ + s.name.name@ + " {\n"@ + import_lines(s.imports@) + (if s.imports@.len() > 0
            && has_kept(s.items@) {
            "\n"@
        } else {
            seq![]
        }) + projection_items(s.items@) + "}\n"@,
    }
}

proof fn lemma_items_ignore_revisions(items: Seq<BlockItem>, it: BlockItem, k: int)
    requires
        is_revisions_item(it),
        0 <= k <= items.len(),
    ensures
        projection_items(items.insert(k, it)) == projection_items(items),
        has_kept(items.insert(k, it)) == has_kept(items),
    decreases items.len(),
{
    let a = items.insert(k, it);
    if k == items.len() {
        assert(a.drop_last() =~= items);
        assert(a.last() == it);
    } else {
        assert(a.drop_last() =~= items.drop_last().insert(k, it));
        assert(a.last() == items.last());
        lemma_items_ignore_revisions(items.drop_last(), it, k);
    }
}

/// The canonical projection does not see `revisions` blocks: a slice with
/// one more `revisions` block, anywhere among its items, projects to the
/// same text.
pub proof fn law_projection_ignores_revisions(f0: File, f1: File, it: BlockItem, k: int)
    requires
        is_revisions_item(it),
        f0.slice is Some,
        f1.slice is Some,
        f1.slice->0.name == f0.slice->0.name,
        f1.slice->0.imports@ == f0.slice->0.imports@,
        0 <= k <= f0.slice->0.items@.len(),
        f1.slice->0.items@ == f0.slice->0.items@.insert(k, it),
    ensures
        spec_canonical_projection(f1) == spec_canonical_projection(f0),
{
    lemma_items_ignore_revisions(f0.slice->0.items@, it, k);
}

fn is_revisions_block(it: &BlockItem) -> (r: bool)
    ensures
        r == is_revisions_item(*it),
{
    match it {
        BlockItem::Block(b) => kind_is(b, "revisions"),
        _ => false,
    }
}

pub fn canonical_source_projection(file: &File) -> (r: String)
    ensures
        r@ == spec_canonical_projection(*file),
{
    let slice = match &file.slice {
        Some(s) => s,
        None => return String::new(),
    };
    let mut out = owned("slice ");
    out.append(slice.name.name.as_str());
    out.append(" {\n");
    let ghost s0 = out@;
    let mut k: usize = 0;
    while k < slice.imports.len()
        invariant
            k <= slice.imports@.len(),
            out@ == s0 + import_lines(slice.imports@.subrange(0, k as int)),
        decreases slice.imports@.len() - k,
    {
        assert(slice.imports@.subrange(0, k as int + 1).drop_last() =~= slice.imports@.subrange(0, k as int));
        out.append("  use ");
        let q = quote_string(slice.imports[k].path.as_str());
        out.append(q.as_str());
        out.append(" as ");
        out.append(slice.imports[k].alias.name.as_str());
        out.append("\n");
        k = k + 1;
    }
    assert(slice.imports@.subrange(0, slice.imports@.len() as int) =~= slice.imports@);
    let items = &slice.items;
    // whether some item is kept
    let mut any_kept = false;
    let mut i: usize = 0;
    while i < items.len()
        invariant
            i <= items@.len(),
            any_kept == has_kept(items@.subrange(0, i as int)),
        decreases items@.len() - i,
    {
        assert(items@.subrange(0, i as int + 1).drop_last() =~= items@.subrange(0, i as int));
        if !is_revisions_block(&items[i]) {
            any_kept = true;
        }
        i = i + 1;
    }
    assert(items@.subrange(0, items@.len() as int) =~= items@);
    if slice.imports.len() > 0 && any_kept {
        out.append("\n");
    }
    let ghost s1 = out@;
    assert(indent(1) =~= "  "@) by {
        assert(indent(0) =~= Seq::<char>::empty());
    }
    let mut first_item = true;
    let mut i: usize = 0;
    while i < items.len()
        invariant
            i <= items@.len(),
            first_item == !has_kept(items@.subrange(0, i as int)),
            indent(1) == "  "@,
            out@ == s1 + projection_items(items@.subrange(0, i as int)),
        decreases items@.len() - i,
    {
        assert(items@.subrange(0, i as int + 1).drop_last() =~= items@.subrange(0, i as int));
        if !is_revisions_block(&items[i]) {
            if !first_item {
                out.append("\n");
            }
            push_item(&items[i], "  ", Ghost(1nat), &mut out);
            first_item = false;
        }
        i = i + 1;
    }
    out.append("}\n");
    assert(out@ =~= spec_canonical_projection(*file));
    out
}

// ---------------------------------------------------------------------------
// Genesis
// ---------------------------------------------------------------------------

/// The block's identifier name, if it has one.
pub open spec fn ident_name(b: BlockDecl) -> Option<Seq<char>> {
    match b.name {
        Some(BlockName::Ident(i)) => Some(i.name@),
        _ => None,
    }
}

/// What a top-level block adds to the projection counts and to the
/// genesis ops: walks with an integer name, named declarations, and each
/// named step of an event.
pub open spec fn count_block(p: ProjectionSummary, b: BlockDecl) -> ProjectionSummary {
    let k = b.kind.name@;
    if k == "walk"@ {
        ProjectionSummary { walks: (p.walks + 1) as usize, ..p }
    } else if k == "cell"@ {
        ProjectionSummary { cells: (p.cells + 1) as usize, ..p }
    } else if k == "derived"@ {
        ProjectionSummary { derived: (p.derived + 1) as usize, ..p }
    } else if k == "association"@ {
        ProjectionSummary { associations: (p.associations + 1) as usize, ..p }
    } else if k == "event"@ {
        ProjectionSummary {
            events: (p.events + 1) as usize,
            steps: (p.steps + steps_in(b.items@)) as usize,
            ..p
        }
    } else if k == "post_failure"@ {
        ProjectionSummary { post_failures: (p.post_failures + 1) as usize, ..p }
    } else if k == "forbidden_state"@ {
        ProjectionSummary { forbidden_states: (p.forbidden_states + 1) as usize, ..p }
    } else if k == "kill_test"@ {
        ProjectionSummary { kill_tests: (p.kill_tests + 1) as usize, ..p }
    } else {
        p
    }
}

/// Number of `step` blocks among `items`.
pub open spec fn steps_in(items: Seq<BlockItem>) -> nat
    decreases items.len(),
{
    if items.len() == 0 {
        0
    } else {
        steps_in(items.drop_last()) + if items.last() is Block && items.last()->Block_0.kind.name@ == "step"@ {
            1nat
        } else {
            0nat
        }
    }
}

/// The projection counts of a slice's items, from `p`.
pub open spec fn count_items(p: ProjectionSummary, items: Seq<BlockItem>) -> ProjectionSummary
    decreases items.len(),
{
    if items.len() == 0 {
        p
    } else {
        let q = count_items(p, items.drop_last());
        match items.last() {
            BlockItem::Block(b) => count_block(q, b),
            _ => q,
        }
    }
}

/// The genesis ops of a block: `add_walk` for a walk with an integer
/// name, `add_declaration` for a named declaration, then `add_step` for
/// each named step of an event.
pub open spec fn block_ops(b: BlockDecl) -> Seq<OpView> {
    let k = b.kind.name@;
    if k == "walk"@ {
        match b.name {
            Some(BlockName::Int { value, .. }) => seq![OpView::AddWalk { walk: value, span: b.span }],
            _ => seq![],
        }
    } else if k == "cell"@ || k == "derived"@ || k == "association"@ || k == "post_failure"@ || k
        == "forbidden_state"@ || k == "kill_test"@ {
        decl_op(b)
    } else if k == "event"@ {
        decl_op(b) + step_ops(
            match ident_name(b) {
                Some(n) => n,
                None => "<anon>"@,
            },
            b.items@,
        )
    } else {
        seq![]
    }
}

pub open spec fn decl_op(b: BlockDecl) -> Seq<OpView> {
    match ident_name(b) {
        Some(n) => seq![OpView::AddDeclaration { kind: b.kind.name@, id: n, span: b.span }],
        None => seq![],
    }
}

pub open spec fn step_ops(event: Seq<char>, items: Seq<BlockItem>) -> Seq<OpView>
    decreases items.len(),
{
    if items.len() == 0 {
        seq![]
    } else {
        step_ops(event, items.drop_last()) + match items.last() {
            BlockItem::Block(st) => if st.kind.name@ == "step"@ {
                match ident_name(st) {
                    Some(n) => seq![OpView::AddStep { event, id: n, span: st.span }],
                    None => seq![],
                }
            } else {
                seq![]
            },
            _ => seq![],
        }
    }
}

pub open spec fn items_ops(items: Seq<BlockItem>) -> Seq<OpView>
    decreases items.len(),
{
    if items.len() == 0 {
        seq![]
    } else {
        items_ops(items.drop_last()) + match items.last() {
            BlockItem::Block(b) => block_ops(b),
            _ => seq![],
        }
    }
}

/// An op as plain values.
pub enum OpView {
    GenesisFromMaterializedView { source_hash: Seq<char>, byte_len: nat, line_count: nat },
    AddSlice { id: Seq<char>, span: Span },
    AddImport { alias: Seq<char>, path: Seq<char>, span: Span },
    AddWalk { walk: i64, span: Span },
    AddDeclaration { kind: Seq<char>, id: Seq<char>, span: Span },
    AddStep { event: Seq<char>, id: Seq<char>, span: Span },
    AddBlock { kind: Seq<char>, name: Seq<char>, items: Seq<Seq<char>> },
    RemoveBlock { kind: Seq<char>, name: Seq<char> },
    ModifyField { block_path: Seq<(Seq<char>, Seq<char>)>, field_name: Seq<char>, value: Seq<char> },
    RemoveField { block_path: Seq<(Seq<char>, Seq<char>)>, field_name: Seq<char> },
    ReorderItems { block_path: Seq<(Seq<char>, Seq<char>)>, new_order: Seq<Seq<char>> },
}

pub open spec fn path_view(p: Seq<BlockPathSegment>) -> Seq<(Seq<char>, Seq<char>)> {
    p.map_values(|s: BlockPathSegment| (s.kind@, s.name@))
}

pub open spec fn strings_view(v: Seq<String>) -> Seq<Seq<char>> {
    v.map_values(|s: String| s@)
}

pub open spec fn op_view(op: SemanticPatchOp) -> OpView {
    match op {
        SemanticPatchOp::GenesisFromMaterializedView { source_hash, byte_len, line_count } => OpView::GenesisFromMaterializedView {
            source_hash: source_hash@,
            byte_len: byte_len as nat,
            line_count: line_count as nat,
        },
        SemanticPatchOp::AddSlice { id, span } => OpView::AddSlice { id: id@, span },
        SemanticPatchOp::AddImport { alias, path, span } => OpView::AddImport { alias: alias@, path: path@, span },
        SemanticPatchOp::AddWalk { walk, span } => OpView::AddWalk { walk, span },
        SemanticPatchOp::AddDeclaration { kind, id, span } => OpView::AddDeclaration { kind: kind@, id: id@, span },
        SemanticPatchOp::AddStep { event, id, span } => OpView::AddStep { event: event@, id: id@, span },
        SemanticPatchOp::AddBlock { kind, name, items } => OpView::AddBlock {
            kind: kind@,
            name: name@,
            items: strings_view(items@),
        },
        SemanticPatchOp::RemoveBlock { kind, name } => OpView::RemoveBlock { kind: kind@, name: name@ },
        SemanticPatchOp::ModifyField { block_path, field_name, value } => OpView::ModifyField {
            block_path: path_view(block_path@),
            field_name: field_name@,
            value: value@,
        },
        SemanticPatchOp::RemoveField { block_path, field_name } => OpView::RemoveField {
            block_path: path_view(block_path@),
            field_name: field_name@,
        },
        SemanticPatchOp::ReorderItems { block_path, new_order } => OpView::ReorderItems {
            block_path: path_view(block_path@),
            new_order: strings_view(new_order@),
        },
    }
}

pub open spec fn ops_view(ops: Seq<SemanticPatchOp>) -> Seq<OpView> {
    ops.map_values(|o: SemanticPatchOp| op_view(o))
}

fn push_op(ops: &mut Vec<SemanticPatchOp>, op: SemanticPatchOp)
    ensures
        ops_view(final(ops)@) == ops_view(old(ops)@).push(op_view(op)),
{
    ops.push(op);
    assert(ops_view(ops@) =~= ops_view(old(ops)@).push(op_view(op)));
}

/// No count of the slice's projection exceeds its number of items.
pub open spec fn counts_fit(items: Seq<BlockItem>) -> bool {
    &&& items.len() <= usize::MAX
    &&& forall|i: int| 0 <= i < items.len() ==> (#[trigger] items[i] matches BlockItem::Block(b) ==> b.items@.len() <= usize::MAX)
}

pub open spec fn total(p: ProjectionSummary) -> int {
    p.walks + p.cells + p.derived + p.associations + p.events + p.steps + p.post_failures + p.forbidden_states
        + p.kill_tests
}

pub open spec fn items_weight(items: Seq<BlockItem>) -> int
    decreases items.len(),
{
    if items.len() == 0 {
        0
    } else {
        items_weight(items.drop_last()) + 1 + match items.last() {
            BlockItem::Block(b) => steps_in(b.items@) as int,
            _ => 0,
        }
    }
}

proof fn lemma_steps_in_bound(items: Seq<BlockItem>)
    ensures
        steps_in(items) <= items.len(),
    decreases items.len(),
{
    if items.len() > 0 {
        lemma_steps_in_bound(items.drop_last());
    }
}

proof fn lemma_count_total(p: ProjectionSummary, items: Seq<BlockItem>)
    ensures
        total(count_items(p, items)) <= total(p) + items_weight(items),
        count_items(p, items).imports == p.imports,
    decreases items.len(),
{
    if items.len() > 0 {
        lemma_count_total(p, items.drop_last());
    }
}

/// Count the slice's declarations into `p` and push their genesis ops.
pub fn collect_projection(slice: &SliceDecl, p: &mut ProjectionSummary, ops: &mut Vec<SemanticPatchOp>)
    requires
        total(*old(p)) + items_weight(slice.items@) <= usize::MAX,
    ensures
        *final(p) == count_items(*old(p), slice.items@),
        ops_view(final(ops)@) == ops_view(old(ops)@) + items_ops(slice.items@),
{
    let items = &slice.items;
    let ghost p0 = *p;
    let ghost o0 = ops_view(ops@);
    let mut i: usize = 0;
    while i < items.len()
        invariant
            i <= items@.len(),
            total(p0) + items_weight(items@) <= usize::MAX,
            *p == count_items(p0, items@.subrange(0, i as int)),
            ops_view(ops@) == o0 + items_ops(items@.subrange(0, i as int)),
        decreases items@.len() - i,
    {
        let ghost pre = items@.subrange(0, i as int);
        assert(items@.subrange(0, i as int + 1).drop_last() =~= pre);
        proof {
            lemma_count_total(p0, pre);
            lemma_weight_prefix(items@, i as int + 1);
        }
        match &items[i] {
            BlockItem::Block(b) => {
                proof {
                    lemma_steps_in_bound(b.items@);
                }
                let ghost before = ops_view(ops@);
                push_block(b, p, ops);
                assert(ops_view(ops@) =~= o0 + items_ops(items@.subrange(0, i as int + 1)));
            },
            _ => {
                assert(ops_view(ops@) =~= o0 + items_ops(items@.subrange(0, i as int + 1)));
            },
        }
        i = i + 1;
    }
    assert(items@.subrange(0, items@.len() as int) =~= items@);
}

proof fn lemma_weight_prefix(items: Seq<BlockItem>, j: int)
    requires
        0 <= j <= items.len(),
    ensures
        items_weight(items.subrange(0, j)) <= items_weight(items),
    decreases items.len(),
{
    if j < items.len() {
        assert(items.drop_last().subrange(0, j) =~= items.subrange(0, j));
        lemma_weight_prefix(items.drop_last(), j);
    } else {
        assert(items.subrange(0, j) =~= items);
    }
}

fn block_name_text(b: &BlockDecl) -> (r: Option<&str>)
    ensures
        match r {
            Some(s) => ident_name(*b) == Some(s@),
            None => ident_name(*b) is None,
        },
{
    match &b.name {
        Some(BlockName::Ident(i)) => Some(i.name.as_str()),
        _ => None,
    }
}

fn push_decl(b: &BlockDecl, ops: &mut Vec<SemanticPatchOp>)
    ensures
        ops_view(final(ops)@) == ops_view(old(ops)@) + decl_op(*b),
{
    match block_name_text(b) {
        Some(id) => {
            push_op(ops, SemanticPatchOp::AddDeclaration { kind: owned(b.kind.name.as_str()), id: owned(id), span: b.span });
        },
        None => {},
    }
    assert(ops_view(ops@) =~= ops_view(old(ops)@) + decl_op(*b));
}

#[verifier::loop_isolation(false)]
fn push_block(b: &BlockDecl, p: &mut ProjectionSummary, ops: &mut Vec<SemanticPatchOp>)
    requires
        total(*old(p)) + 1 + steps_in(b.items@) <= usize::MAX,
    ensures
        *final(p) == count_block(*old(p), *b),
        ops_view(final(ops)@) == ops_view(old(ops)@) + block_ops(*b),
{
    let ghost o0 = ops_view(ops@);
    if kind_is(b, "walk") {
        p.walks = p.walks + 1;
        match &b.name {
            Some(BlockName::Int { value, .. }) => {
                push_op(ops, SemanticPatchOp::AddWalk { walk: *value, span: b.span });
            },
            _ => {},
        }
        assert(ops_view(ops@) =~= o0 + block_ops(*b));
    } else if kind_is(b, "cell") {
        p.cells = p.cells + 1;
        push_decl(b, ops);
    } else if kind_is(b, "derived") {
        p.derived = p.derived + 1;
        push_decl(b, ops);
    } else if kind_is(b, "association") {
        p.associations = p.associations + 1;
        push_decl(b, ops);
    } else if kind_is(b, "event") {
        push_decl(b, ops);
        let event_id = match block_name_text(b) {
            Some(n) => n,
            None => "<anon>",
        };
        let ghost o1 = ops_view(ops@);
        let mut n_steps: usize = 0;
        let mut k: usize = 0;
        while k < b.items.len()
            invariant
                k <= b.items@.len(),
                n_steps == steps_in(b.items@.subrange(0, k as int)),
                steps_in(b.items@) <= usize::MAX,
                ops_view(ops@) == o1 + step_ops(event_id@, b.items@.subrange(0, k as int)),
            decreases b.items@.len() - k,
        {
            assert(b.items@.subrange(0, k as int + 1).drop_last() =~= b.items@.subrange(0, k as int));
            proof {
                lemma_steps_prefix(b.items@, k as int + 1);
            }
            match &b.items[k] {
                BlockItem::Block(st) => {
                    if kind_is(st, "step") {
                        n_steps = n_steps + 1;
                        match block_name_text(st) {
                            Some(id) => {
                                push_op(ops, SemanticPatchOp::AddStep { event: owned(event_id), id: owned(id), span: st.span });
                            },
                            None => {},
                        }
                    }
                },
                _ => {},
            }
            assert(ops_view(ops@) =~= o1 + step_ops(event_id@, b.items@.subrange(0, k as int + 1)));
            k = k + 1;
        }
        assert(b.items@.subrange(0, b.items@.len() as int) =~= b.items@);
        p.events = p.events + 1;
        p.steps = p.steps + n_steps;
        proof {
            reveal_strlit("event");
            reveal_strlit("walk");
            reveal_strlit("cell");
            reveal_strlit("derived");
            reveal_strlit("association");
            reveal_strlit("post_failure");
            reveal_strlit("forbidden_state");
            reveal_strlit("kill_test");
        }
        assert("post_failure"@.len() == 12);
        assert("forbidden_state"@.len() == 15);
        assert("event"@.len() == 5);
        assert(block_ops(*b) == decl_op(*b) + step_ops(event_id@, b.items@));
        assert(ops_view(ops@) =~= o0 + block_ops(*b));
    } else if kind_is(b, "post_failure") {
        p.post_failures = p.post_failures + 1;
        push_decl(b, ops);
    } else if kind_is(b, "forbidden_state") {
        p.forbidden_states = p.forbidden_states + 1;
        push_decl(b, ops);
    } else if kind_is(b, "kill_test") {
        p.kill_tests = p.kill_tests + 1;
        push_decl(b, ops);
    } else {
        assert(ops_view(ops@) =~= o0 + block_ops(*b));
    }
}

proof fn lemma_steps_prefix(items: Seq<BlockItem>, j: int)
    requires
        0 <= j <= items.len(),
    ensures
        steps_in(items.subrange(0, j)) <= steps_in(items),
    decreases items.len(),
{
    if j < items.len() {
        assert(items.drop_last().subrange(0, j) =~= items.subrange(0, j));
        lemma_steps_prefix(items.drop_last(), j);
    } else {
        assert(items.subrange(0, j) =~= items);
    }
}

/// The string value of the first `meta` block's `key:` field.
pub open spec fn meta_from(items: Seq<BlockItem>, key: Seq<char>, i: int) -> Option<Seq<char>>
    decreases items.len() - i,
{
    if i < 0 || i >= items.len() {
        None
    } else if items[i] is Block && items[i]->Block_0.kind.name@ == "meta"@ {
        match spec_field_value(items[i]->Block_0, key) {
            Some(FieldValue::String { value, .. }) => Some(value@),
            _ => None,
        }
    } else {
        meta_from(items, key, i + 1)
    }
}

fn meta_string_field(slice: &SliceDecl, key: &str) -> (r: Option<String>)
    ensures
        match r {
            Some(s) => meta_from(slice.items@, key@, 0) == Some(s@),
            None => meta_from(slice.items@, key@, 0) is None,
        },
{
    let mut i: usize = 0;
    while i < slice.items.len()
        invariant
            i <= slice.items@.len(),
            meta_from(slice.items@, key@, 0) == meta_from(slice.items@, key@, i as int),
        decreases slice.items@.len() - i,
    {
        match &slice.items[i] {
            BlockItem::Block(b) => {
                if kind_is(b, "meta") {
                    return match field_value(b, key) {
                        Some(FieldValue::String { value, .. }) => Some(owned(value.as_str())),
                        _ => None,
                    };
                }
            },
            _ => {},
        }
        i = i + 1;
    }
    None
}

/// The slice slug, if there is a slice.
pub open spec fn slice_slug(file: File) -> Option<Seq<char>> {
    match file.slice {
        Some(s) => Some(s.name.name@),
        None => None,
    }
}

pub fn slice_slug_text(file: &File) -> (r: Option<String>)
    ensures
        match r {
            Some(s) => slice_slug(*file) == Some(s@),
            None => slice_slug(*file) is None,
        },
{
    match &file.slice {
        Some(s) => Some(owned(s.name.name.as_str())),
        None => None,
    }
}

pub open spec fn opt_str(o: Option<String>) -> Option<Seq<char>> {
    match o {
        Some(s) => Some(s@),
        None => None,
    }
}

/// The genesis ops of a file: the materialized-view op, then `add_slice`,
/// an `add_import` per import, and the declarations' ops.
pub open spec fn genesis_ops(file: File, source: Seq<char>) -> Seq<OpView> {
    seq![
        OpView::GenesisFromMaterializedView {
            source_hash: spec_source_sha256(source),
            byte_len: source_byte_len(source),
            line_count: spec_line_count(source),
        },
    ] + match file.slice {
        Some(s) => seq![OpView::AddSlice { id: s.name.name@, span: s.name.span }] + s.imports@.map_values(
            |im: Import| OpView::AddImport { alias: im.alias.name@, path: im.path@, span: im.span },
        ) + items_ops(s.items@),
        None => seq![],
    }
}

/// UTF-8 length of a text.
pub open spec fn source_byte_len(source: Seq<char>) -> nat {
    vstd::utf8::encode_utf8(source).len()
}

/// The projection counts of a file.
pub open spec fn file_projection(file: File) -> ProjectionSummary {
    match file.slice {
        Some(s) => count_items(ProjectionSummary { imports: s.imports@.len() as usize, ..zero_projection() }, s.items@),
        None => zero_projection(),
    }
}

/// The file is small enough for its counts to fit in `usize`.
pub open spec fn projection_fits(file: File) -> bool {
    match file.slice {
        Some(s) => items_weight(s.items@) <= usize::MAX,
        None => true,
    }
}

/// Number of `step` blocks among `items`.
fn count_steps(items: &Vec<BlockItem>) -> (n: usize)
    ensures
        n == steps_in(items@),
{
    let mut n: usize = 0;
    let mut k: usize = 0;
    while k < items.len()
        invariant
            k <= items@.len(),
            n == steps_in(items@.subrange(0, k as int)),
            n <= k,
        decreases items@.len() - k,
    {
        assert(items@.subrange(0, k as int + 1).drop_last() =~= items@.subrange(0, k as int));
        match &items[k] {
            BlockItem::Block(st) => {
                if kind_is(st, "step") {
                    n = n + 1;
                }
            },
            _ => {},
        }
        k = k + 1;
    }
    assert(items@.subrange(0, items@.len() as int) =~= items@);
    n
}

/// The file's declarations are few enough for the genesis projection
/// counts to fit in a `usize`.
pub fn genesis_fits(file: &File) -> (r: bool)
    ensures
        r == projection_fits(*file),
{
    let slice = match &file.slice {
        Some(s) => s,
        None => {
            return true;
        },
    };
    let items = &slice.items;
    let mut w: usize = 0;
    let mut i: usize = 0;
    while i < items.len()
        invariant
            i <= items@.len(),
            file.slice == Some(*slice),
            items@ == slice.items@,
            w == items_weight(items@.subrange(0, i as int)),
        decreases items@.len() - i,
    {
        assert(items@.subrange(0, i as int + 1).drop_last() =~= items@.subrange(0, i as int));
        let steps: usize = match &items[i] {
            BlockItem::Block(b) => count_steps(&b.items),
            _ => 0,
        };
        assert(items@.subrange(0, i as int + 1).last() == items@[i as int]);
        assert(items_weight(items@.subrange(0, i as int + 1)) == w + 1 + steps);
        if w == usize::MAX || steps > usize::MAX - w - 1 {
            proof {
                lemma_weight_prefix(items@, i as int + 1);
            }
            return false;
        }
        w = w + 1 + steps;
        i = i + 1;
    }
    assert(items@.subrange(0, items@.len() as int) =~= items@);
    true
}

/// The genesis report of a source and its parsed file: revision 1, with no
/// base, whose result hash is the hash of the source text itself.
pub fn build_genesis_revision(
    file: &File,
    source: &str,
    source_path: Option<String>,
    reason: String,
    author: Option<String>,
) -> (r: GenesisRevisionReport)
    requires
        projection_fits(*file),
    ensures
        r.schema_version@ == REVISION_MANIFEST_VERSION@,
        opt_str(r.source_path) == opt_str(source_path),
        opt_str(r.slice) == slice_slug(*file),
        opt_str(r.memspec_version) == match file.slice {
            Some(s) => meta_from(s.items@, "memspec_version"@, 0),
            None => None,
        },
        r.materialized_view.source_hash@ == spec_source_sha256(source@),
        r.materialized_view.byte_len == source.spec_bytes().len(),
        r.materialized_view.line_count == spec_line_count(source@),
        r.revision.revision_number == 1,
        r.revision.base_revision is None,
        r.revision.base_hash is None,
        r.revision.result_hash@ == spec_source_sha256(source@),
        r.revision.patch_format_version@ == PATCH_FORMAT_VERSION@,
        r.revision.reason@ == reason@,
        opt_str(r.revision.author) == opt_str(author),
        ops_view(r.revision.ops@) == genesis_ops(*file, source@),
        r.projection == file_projection(*file),
{
    let source_hash = source_sha256(source);
    let byte_len = source.as_bytes().len();
    let lines = line_count(source);
    let mut ops: Vec<SemanticPatchOp> = Vec::new();
    push_op(
        &mut ops,
        SemanticPatchOp::GenesisFromMaterializedView {
            source_hash: source_sha256(source),
            byte_len,
            line_count: lines,
        },
    );
    let mut projection = ProjectionSummary::default();
    let mut memspec_version: Option<String> = None;
    match &file.slice {
        Some(slice) => {
            projection.imports = slice.imports.len();
            push_op(&mut ops, SemanticPatchOp::AddSlice { id: owned(slice.name.name.as_str()), span: slice.name.span });
            let ghost o1 = ops_view(ops@);
            let mut k: usize = 0;
            while k < slice.imports.len()
                invariant
                    k <= slice.imports@.len(),
                    ops_view(ops@) == o1 + slice.imports@.subrange(0, k as int).map_values(
                        |im: Import| OpView::AddImport { alias: im.alias.name@, path: im.path@, span: im.span },
                    ),
                decreases slice.imports@.len() - k,
            {
                let im = &slice.imports[k];
                push_op(
                    &mut ops,
                    SemanticPatchOp::AddImport {
                        alias: owned(im.alias.name.as_str()),
                        path: owned(im.path.as_str()),
                        span: im.span,
                    },
                );
                assert(slice.imports@.subrange(0, k as int + 1).map_values(
                    |im: Import| OpView::AddImport { alias: im.alias.name@, path: im.path@, span: im.span },
                ) =~= slice.imports@.subrange(0, k as int).map_values(
                    |im: Import| OpView::AddImport { alias: im.alias.name@, path: im.path@, span: im.span },
                ).push(OpView::AddImport { alias: im.alias.name@, path: im.path@, span: im.span }));
                k = k + 1;
            }
            assert(slice.imports@.subrange(0, slice.imports@.len() as int) =~= slice.imports@);
            memspec_version = meta_string_field(slice, "memspec_version");
            collect_projection(slice, &mut projection, &mut ops);
        },
        None => {},
    }
    let r = GenesisRevisionReport {
        schema_version: owned(REVISION_MANIFEST_VERSION),
        source_path,
        slice: slice_slug_text(file),
        memspec_version,
        materialized_view: MaterializedViewSummary { source_hash: owned(source_hash.as_str()), byte_len, line_count: lines },
        revision: RevisionSummary {
            revision_number: 1,
            base_revision: None,
            base_hash: None,
            result_hash: source_hash,
            patch_format_version: owned(PATCH_FORMAT_VERSION),
            reason,
            author,
            ops,
        },
        projection,
    };
    assert(ops_view(r.revision.ops@) =~= genesis_ops(*file, source@));
    r
}

} // verus!
