//! Mermaid graph rendering of a slice: one node per declaration, shaped by
//! slot kind, and edges for `derives_from`, `over`, `mutates`, forbidden
//! state cells, kill-tests and post-failure rows.
//!
//! Node texts are shared by the single-slice graph and the working-set
//! graph; the latter prefixes node ids with the slice slug and indents
//! them inside a `subgraph`.

use vstd::prelude::*;

use crate::analysis::nav::{field_value, kind_is, spec_field_ident, spec_field_value};
use crate::analysis::render::{
    blocks_text, ident_or, ident_or_text, inline_or, inline_or_text, lemma_prefix, name_or, name_or_text,
};
use crate::analysis::render_text::{map_chars, mermaid_char, mermaid_escape, mid, mid_char, pmid, spec_pmid};
use crate::ast::{BlockDecl, BlockItem, FieldValue, File, MapEntry};
use crate::text::{is_lit, owned};

verus! {

/// `name` as a Mermaid node id.
pub open spec fn mid_s(name: Seq<char>) -> Seq<char> {
    map_chars(name, |c: char| mid_char(c))
}

/// The node id of `name`: plain in a single-slice graph, prefixed with the
/// slice slug in a working-set graph.
pub open spec fn node_id(slug: Option<Seq<char>>, name: Seq<char>) -> Seq<char> {
    match slug {
        Some(s) => spec_pmid(s, name),
        None => mid_s(name),
    }
}

fn node_id_text(slug: Option<&str>, name: &str) -> (r: String)
    ensures
        r@ == node_id(opt_view(slug), name@),
{
    match slug {
        Some(s) => pmid(s, name),
        None => mid(name),
    }
}

pub open spec fn opt_view(slug: Option<&str>) -> Option<Seq<char>> {
    match slug {
        Some(s) => Some(s@),
        None => None,
    }
}

/// The node shapes, one per slot kind.
#[derive(Clone, Copy, PartialEq, Eq, Structural)]
pub enum NodeShape {
    Cell,
    Derived,
    Association,
    Event,
    ForbiddenState,
    KillTest,
    PostFailure,
}

/// The label and brackets of a node, after its id.
pub open spec fn node_body(shape: NodeShape, b: BlockDecl) -> Seq<char> {
    let id = name_or(b, "?"@);
    match shape {
        NodeShape::Cell => "[(\""@ + id + "<br/><i>"@ + map_chars(inline_or(b, "type"@, seq![]), |c: char| mermaid_char(c))
            + "</i>\")]"@,
        NodeShape::Derived => "{{\""@ + id + "<br/>(derived)\"}}"@,
        NodeShape::Association => "[/\""@ + id + "<br/>(invariant)\"\\]"@,
        NodeShape::Event => "([\""@ + id + "<br/>(event)\"])"@,
        NodeShape::ForbiddenState => "{{\"⛔ "@ + id + "<br/><i>"@ + ident_or(b, "reachability"@, "?"@) + "</i>\"}}"@,
        NodeShape::KillTest => "[/\"🎯 "@ + id + "<br/>"@ + ident_or(b, "kind"@, "?"@) + " · "@ + ident_or(
            b,
            "status"@,
            "declared"@,
        ) + "\"/]"@,
        NodeShape::PostFailure => "[\"📜 "@ + id + "<br/>(post_failure)\"]"@,
    }
}

/// One node line.
pub open spec fn node_line(slug: Option<Seq<char>>, indent: Seq<char>, shape: NodeShape, b: BlockDecl) -> Seq<char> {
    indent + node_id(slug, name_or(b, "?"@)) + node_body(shape, b) + "\n"@
}

pub open spec fn shape_kind(shape: NodeShape) -> Seq<char> {
    match shape {
        NodeShape::Cell => "cell"@,
        NodeShape::Derived => "derived"@,
        NodeShape::Association => "association"@,
        NodeShape::Event => "event"@,
        NodeShape::ForbiddenState => "forbidden_state"@,
        NodeShape::KillTest => "kill_test"@,
        NodeShape::PostFailure => "post_failure"@,
    }
}

/// The node lines of every block of the shape's kind, in order.
pub open spec fn node_lines(slug: Option<Seq<char>>, indent: Seq<char>, shape: NodeShape, items: Seq<BlockItem>) -> Seq<char> {
    blocks_text(items, shape_kind(shape), |b: BlockDecl| node_line(slug, indent, shape, b))
}

/// The nodes of cells, derived values, associations, events, forbidden
/// states and kill-tests, in that order.
pub open spec fn decl_nodes(slug: Option<Seq<char>>, indent: Seq<char>, items: Seq<BlockItem>) -> Seq<char> {
    node_lines(slug, indent, NodeShape::Cell, items) + node_lines(slug, indent, NodeShape::Derived, items) + node_lines(
        slug,
        indent,
        NodeShape::Association,
        items,
    ) + node_lines(slug, indent, NodeShape::Event, items) + node_lines(slug, indent, NodeShape::ForbiddenState, items)
        + node_lines(slug, indent, NodeShape::KillTest, items)
}

fn push_node_body(shape: NodeShape, b: &BlockDecl, out: &mut String)
    ensures
        final(out)@ == old(out)@ + node_body(shape, *b),
{
    let id = name_or_text(b, "?");
    match shape {
        NodeShape::Cell => {
            out.append("[(\"");
            out.append(id);
            out.append("<br/><i>");
            let ty = inline_or_text(b, "type", "");
            let e = mermaid_escape(ty.as_str());
            out.append(e.as_str());
            out.append("</i>\")]");
            proof {
                assert(""@ =~= Seq::<char>::empty()) by {
                    reveal_strlit("");
                }
            }
        },
        NodeShape::Derived => {
            out.append("{{\"");
            out.append(id);
            out.append("<br/>(derived)\"}}");
        },
        NodeShape::Association => {
            out.append("[/\"");
            out.append(id);
            out.append("<br/>(invariant)\"\\]");
        },
        NodeShape::Event => {
            out.append("([\"");
            out.append(id);
            out.append("<br/>(event)\"])");
        },
        NodeShape::ForbiddenState => {
            out.append("{{\"⛔ ");
            out.append(id);
            out.append("<br/><i>");
            out.append(ident_or_text(b, "reachability", "?"));
            out.append("</i>\"}}");
        },
        NodeShape::KillTest => {
            out.append("[/\"🎯 ");
            out.append(id);
            out.append("<br/>");
            out.append(ident_or_text(b, "kind", "?"));
            out.append(" · ");
            out.append(ident_or_text(b, "status", "declared"));
            out.append("\"/]");
        },
        NodeShape::PostFailure => {
            out.append("[\"📜 ");
            out.append(id);
            out.append("<br/>(post_failure)\"]");
        },
    }
}

fn shape_kind_text(shape: NodeShape) -> (r: &'static str)
    ensures
        r@ == shape_kind(shape),
{
    match shape {
        NodeShape::Cell => "cell",
        NodeShape::Derived => "derived",
        NodeShape::Association => "association",
        NodeShape::Event => "event",
        NodeShape::ForbiddenState => "forbidden_state",
        NodeShape::KillTest => "kill_test",
        NodeShape::PostFailure => "post_failure",
    }
}

pub fn push_node_lines(slug: Option<&str>, indent: &str, shape: NodeShape, items: &Vec<BlockItem>, out: &mut String)
    ensures
        final(out)@ == old(out)@ + node_lines(opt_view(slug), indent@, shape, items@),
{
    let kind = shape_kind_text(shape);
    let ghost start = out@;
    let ghost f = |b: BlockDecl| node_line(opt_view(slug), indent@, shape, b);
    let mut i: usize = 0;
    while i < items.len()
        invariant
            i <= items@.len(),
            kind@ == shape_kind(shape),
            f == (|b: BlockDecl| node_line(opt_view(slug), indent@, shape, b)),
            out@ == start + blocks_text(items@.subrange(0, i as int), kind@, f),
        decreases items@.len() - i,
    {
        proof {
            lemma_prefix(items@, i as int);
        }
        match &items[i] {
            BlockItem::Block(b) => {
                if kind_is(b, kind) {
                    out.append(indent);
                    let nid = node_id_text(slug, name_or_text(b, "?"));
                    out.append(nid.as_str());
                    push_node_body(shape, b, out);
                    out.append("\n");
                }
            },
            _ => {},
        }
        i = i + 1;
    }
    assert(items@.subrange(0, items@.len() as int) =~= items@);
}

pub fn push_decl_nodes(slug: Option<&str>, indent: &str, items: &Vec<BlockItem>, out: &mut String)
    ensures
        final(out)@ == old(out)@ + decl_nodes(opt_view(slug), indent@, items@),
{
    let ghost s0 = out@;
    push_node_lines(slug, indent, NodeShape::Cell, items, out);
    push_node_lines(slug, indent, NodeShape::Derived, items, out);
    push_node_lines(slug, indent, NodeShape::Association, items, out);
    push_node_lines(slug, indent, NodeShape::Event, items, out);
    push_node_lines(slug, indent, NodeShape::ForbiddenState, items, out);
    push_node_lines(slug, indent, NodeShape::KillTest, items, out);
    assert(out@ =~= s0 + decl_nodes(opt_view(slug), indent@, items@));
}

// ---------------------------------------------------------------------------
// Edges shared by both graphs
// ---------------------------------------------------------------------------

/// `f` of each identifier among `vals`, in order (other values give
/// nothing).
pub open spec fn each_ident(vals: Seq<FieldValue>, f: spec_fn(Seq<char>) -> Seq<char>) -> Seq<char>
    decreases vals.len(),
{
    if vals.len() == 0 {
        seq![]
    } else {
        each_ident(vals.drop_last(), f) + match vals.last() {
            FieldValue::Ident(i) => f(i.name@),
            _ => seq![],
        }
    }
}

/// `f` of each key of a map.
pub open spec fn each_key(entries: Seq<MapEntry>, f: spec_fn(Seq<char>) -> Seq<char>) -> Seq<char>
    decreases entries.len(),
{
    if entries.len() == 0 {
        seq![]
    } else {
        each_key(entries.drop_last(), f) + f(entries.last().key.name@)
    }
}

/// The `-.touches.->` edge lines of a forbidden state's `cells:` map and
/// its `==kill==>` edge (none for a `TODO` kill-test).
pub open spec fn fs_edges(slug: Option<Seq<char>>, fs: BlockDecl) -> Seq<char> {
    let id = name_or(fs, "?"@);
    (match spec_field_value(fs, "cells"@) {
        Some(FieldValue::Mapping { entries, .. }) => each_key(
            entries@,
            |k: Seq<char>| "  "@ + node_id(slug, id) + " -.touches.-> "@ + node_id(slug, k) + "\n"@,
        ),
        _ => seq![],
    }) + match spec_field_value(fs, "kill_test"@) {
        Some(FieldValue::Ident(kt)) => if kt.name@ != "TODO"@ {
            "  "@ + node_id(slug, kt.name@) + " ==kill==> "@ + node_id(slug, id) + "\n"@
        } else {
            seq![]
        },
        _ => seq![],
    }
}

/// The `-.documents.->` edge line of a post-failure row.
pub open spec fn pf_edge(slug: Option<Seq<char>>, pf: BlockDecl) -> Seq<char> {
    match spec_field_ident(pf, "event"@) {
        Some(ev) => "  "@ + node_id(slug, name_or(pf, "?"@)) + " -.documents.-> "@ + node_id(slug, ev.name@) + "\n"@,
        None => seq![],
    }
}

pub fn push_fs_edges(slug: Option<&str>, fs: &BlockDecl, out: &mut String)
    ensures
        final(out)@ == old(out)@ + fs_edges(opt_view(slug), *fs),
{
    let ghost s0 = out@;
    let id = name_or_text(fs, "?");
    let fs_id = node_id_text(slug, id);
    let ghost f = |k: Seq<char>| "  "@ + node_id(opt_view(slug), id@) + " -.touches.-> "@ + node_id(opt_view(slug), k) + "\n"@;
    match field_value(fs, "cells") {
        Some(FieldValue::Mapping { entries, .. }) => {
            let ghost start = out@;
            let mut k: usize = 0;
            while k < entries.len()
                invariant
                    k <= entries@.len(),
                    fs_id@ == node_id(opt_view(slug), id@),
                    f == (|k: Seq<char>| "  "@ + node_id(opt_view(slug), id@) + " -.touches.-> "@ + node_id(opt_view(slug), k) + "\n"@),
                    out@ == start + each_key(entries@.subrange(0, k as int), f),
                decreases entries@.len() - k,
            {
                proof {
                    assert(entries@.subrange(0, k as int + 1).drop_last() =~= entries@.subrange(0, k as int));
                }
                out.append("  ");
                out.append(fs_id.as_str());
                out.append(" -.touches.-> ");
                let t = node_id_text(slug, entries[k].key.name.as_str());
                out.append(t.as_str());
                out.append("\n");
                k = k + 1;
            }
            assert(entries@.subrange(0, entries@.len() as int) =~= entries@);
        },
        _ => {},
    }
    let ghost s1 = out@;
    match field_value(fs, "kill_test") {
        Some(FieldValue::Ident(kt)) => {
            if !is_lit(&kt.name, "TODO") {
                out.append("  ");
                let t = node_id_text(slug, kt.name.as_str());
                out.append(t.as_str());
                out.append(" ==kill==> ");
                out.append(fs_id.as_str());
                out.append("\n");
            }
        },
        _ => {},
    }
    assert(out@ =~= s0 + fs_edges(opt_view(slug), *fs));
}

pub fn push_pf_edge(slug: Option<&str>, pf: &BlockDecl, out: &mut String)
    ensures
        final(out)@ == old(out)@ + pf_edge(opt_view(slug), *pf),
{
    match field_value(pf, "event") {
        Some(FieldValue::Ident(ev)) => {
            out.append("  ");
            let a = node_id_text(slug, name_or_text(pf, "?"));
            out.append(a.as_str());
            out.append(" -.documents.-> ");
            let b = node_id_text(slug, ev.name.as_str());
            out.append(b.as_str());
            out.append("\n");
        },
        _ => {},
    }
}

// ---------------------------------------------------------------------------
// Single-slice graph
// ---------------------------------------------------------------------------

/// The list items of the block's `key:` field that are identifiers,
/// through `f` (nothing when the field is not a list).
pub open spec fn list_idents(b: BlockDecl, key: Seq<char>, f: spec_fn(Seq<char>) -> Seq<char>) -> Seq<char> {
    match spec_field_value(b, key) {
        Some(FieldValue::List { items, .. }) => each_ident(items@, f),
        _ => seq![],
    }
}

/// An edge line between the block `id` and `n`, the block first when
/// `from_block`.
pub open spec fn edge_line(from_block: bool, id: Seq<char>, arrow: Seq<char>, n: Seq<char>) -> Seq<char> {
    if from_block {
        "  "@ + mid_s(id) + arrow + mid_s(n) + "\n"@
    } else {
        "  "@ + mid_s(n) + arrow + mid_s(id) + "\n"@
    }
}

/// Which edges a block of the single-slice graph gives.
#[derive(Clone, Copy, PartialEq, Eq, Structural)]
pub enum EdgeSet {
    Derives,
    Constrains,
    Mutates,
    Forbidden,
    PostFailure,
}

pub open spec fn edge_kind(e: EdgeSet) -> Seq<char> {
    match e {
        EdgeSet::Derives => "derived"@,
        EdgeSet::Constrains => "association"@,
        EdgeSet::Mutates => "event"@,
        EdgeSet::Forbidden => "forbidden_state"@,
        EdgeSet::PostFailure => "post_failure"@,
    }
}

/// The edge lines (and, for a post-failure row, the node line) a block
/// contributes to the single-slice graph.
pub open spec fn single_edges(e: EdgeSet, b: BlockDecl) -> Seq<char> {
    let id = name_or(b, "?"@);
    match e {
        EdgeSet::Derives => list_idents(b, "derives_from"@, |n: Seq<char>| edge_line(false, id, " -.derives.-> "@, n)),
        EdgeSet::Constrains => list_idents(b, "over"@, |n: Seq<char>| edge_line(true, id, " -.constrains.-> "@, n)),
        EdgeSet::Mutates => list_idents(b, "mutates"@, |n: Seq<char>| edge_line(true, id, " ==mutates==> "@, n)),
        EdgeSet::Forbidden => fs_edges(None, b),
        EdgeSet::PostFailure => node_line(None, "  "@, NodeShape::PostFailure, b) + pf_edge(None, b),
    }
}

pub open spec fn edge_lines(e: EdgeSet, items: Seq<BlockItem>) -> Seq<char> {
    blocks_text(items, edge_kind(e), |b: BlockDecl| single_edges(e, b))
}

/// What [`render_mermaid`] gives.
pub open spec fn spec_render_mermaid(file: File) -> Seq<char> {
    match file.slice {
        None => "graph TD\n  empty[\"(no slice)\"]\n"@,
        Some(s) => {
            let items = s.items@;
            "graph TD\n  %% slice: "@ + s.name.name@ + "\n\n"@ + decl_nodes(None, "  "@, items) + "\n"@ + edge_lines(
                EdgeSet::Derives,
                items,
            ) + edge_lines(EdgeSet::Constrains, items) + edge_lines(EdgeSet::Mutates, items) + edge_lines(
                EdgeSet::Forbidden,
                items,
            ) + edge_lines(EdgeSet::PostFailure, items)
        },
    }
}

/// Appends the edge line between the block whose node id is `own` and `n`.
fn push_edge_line(from_block: bool, own: &String, arrow: &str, n: &str, Ghost(id): Ghost<Seq<char>>, out: &mut String)
    requires
        own@ == mid_s(id),
    ensures
        final(out)@ == old(out)@ + edge_line(from_block, id, arrow@, n@),
{
    let other = mid(n);
    out.append("  ");
    if from_block {
        out.append(own.as_str());
        out.append(arrow);
        out.append(other.as_str());
    } else {
        out.append(other.as_str());
        out.append(arrow);
        out.append(own.as_str());
    }
    out.append("\n");
}

/// The list-edge lines of `b`'s `key:` list; `from_block` says whether the
/// block is the edge's source (`constrains`, `mutates`) or its target
/// (`derives`).
fn push_list_edges(b: &BlockDecl, key: &str, arrow: &str, from_block: bool, out: &mut String)
    ensures
        final(out)@ == old(out)@ + list_idents(
            *b,
            key@,
            |n: Seq<char>| edge_line(from_block, name_or(*b, "?"@), arrow@, n),
        ),
{
    let ghost f = |n: Seq<char>| edge_line(from_block, name_or(*b, "?"@), arrow@, n);
    let own = mid(name_or_text(b, "?"));
    match field_value(b, key) {
        Some(FieldValue::List { items, .. }) => {
            let ghost start = out@;
            let mut k: usize = 0;
            while k < items.len()
                invariant
                    k <= items@.len(),
                    own@ == mid_s(name_or(*b, "?"@)),
                    f == (|n: Seq<char>| edge_line(from_block, name_or(*b, "?"@), arrow@, n)),
                    out@ == start + each_ident(items@.subrange(0, k as int), f),
                decreases items@.len() - k,
            {
                proof {
                    assert(items@.subrange(0, k as int + 1).drop_last() =~= items@.subrange(0, k as int));
                }
                match &items[k] {
                    FieldValue::Ident(i) => {
                        push_edge_line(from_block, &own, arrow, i.name.as_str(), Ghost(name_or(*b, "?"@)), out);
                    },
                    _ => {},
                }
                k = k + 1;
            }
            assert(items@.subrange(0, items@.len() as int) =~= items@);
        },
        _ => {},
    }
}

fn push_single_edges(e: EdgeSet, b: &BlockDecl, out: &mut String)
    ensures
        final(out)@ == old(out)@ + single_edges(e, *b),
{
    match e {
        EdgeSet::Derives => {
            push_list_edges(b, "derives_from", " -.derives.-> ", false, out);
        },
        EdgeSet::Constrains => {
            push_list_edges(b, "over", " -.constrains.-> ", true, out);
        },
        EdgeSet::Mutates => {
            push_list_edges(b, "mutates", " ==mutates==> ", true, out);
        },
        EdgeSet::Forbidden => {
            push_fs_edges(None, b, out);
        },
        EdgeSet::PostFailure => {
            out.append("  ");
            let nid = mid(name_or_text(b, "?"));
            out.append(nid.as_str());
            push_node_body(NodeShape::PostFailure, b, out);
            out.append("\n");
            push_pf_edge(None, b, out);
        },
    }
}

fn edge_kind_text(e: EdgeSet) -> (r: &'static str)
    ensures
        r@ == edge_kind(e),
{
    match e {
        EdgeSet::Derives => "derived",
        EdgeSet::Constrains => "association",
        EdgeSet::Mutates => "event",
        EdgeSet::Forbidden => "forbidden_state",
        EdgeSet::PostFailure => "post_failure",
    }
}

fn push_edge_lines(e: EdgeSet, items: &Vec<BlockItem>, out: &mut String)
    ensures
        final(out)@ == old(out)@ + edge_lines(e, items@),
{
    let kind = edge_kind_text(e);
    let ghost start = out@;
    let ghost f = |b: BlockDecl| single_edges(e, b);
    let mut i: usize = 0;
    while i < items.len()
        invariant
            i <= items@.len(),
            kind@ == edge_kind(e),
            f == (|b: BlockDecl| single_edges(e, b)),
            out@ == start + blocks_text(items@.subrange(0, i as int), kind@, f),
        decreases items@.len() - i,
    {
        proof {
            lemma_prefix(items@, i as int);
        }
        match &items[i] {
            BlockItem::Block(b) => {
                if kind_is(b, kind) {
                    push_single_edges(e, b, out);
                }
            },
            _ => {},
        }
        i = i + 1;
    }
    assert(items@.subrange(0, items@.len() as int) =~= items@);
}

/// The slice as a Mermaid graph: a node per declaration, shaped by kind,
/// then the `derives`, `constrains`, `mutates`, `touches`, `kill` and
/// `documents` edges.
pub fn render_mermaid(file: &File) -> (r: String)
    ensures
        r@ == spec_render_mermaid(*file),
{
    let slice = match &file.slice {
        Some(s) => s,
        None => return owned("graph TD\n  empty[\"(no slice)\"]\n"),
    };
    let items = &slice.items;
    let mut out = owned("graph TD\n  %% slice: ");
    out.append(slice.name.name.as_str());
    out.append("\n\n");
    let ghost s0 = out@;
    push_decl_nodes(None, "  ", items, &mut out);
    out.append("\n");
    let ghost s1 = out@;
    push_edge_lines(EdgeSet::Derives, items, &mut out);
    push_edge_lines(EdgeSet::Constrains, items, &mut out);
    push_edge_lines(EdgeSet::Mutates, items, &mut out);
    push_edge_lines(EdgeSet::Forbidden, items, &mut out);
    push_edge_lines(EdgeSet::PostFailure, items, &mut out);
    assert(out@ =~= spec_render_mermaid(*file));
    out
}

} // verus!
