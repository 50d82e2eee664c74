//! Working-set renderings: every slice of a working set in one markdown
//! document or one Mermaid graph. Cross-slice qualified references are
//! resolved through each file's import map.

use vstd::prelude::*;

use crate::analysis::loader::{
    LoadedFile, WorkingSet, alias_target, file_index_from, resolved_get, same_path, spec_path_key,
};
use crate::analysis::nav::{field_value, kind_is, spec_field_value};
use crate::analysis::render::{blocks_text, lemma_prefix, name_or, name_or_text, render_markdown, spec_render_markdown};
use crate::analysis::render_graph::{
    NodeShape, decl_nodes, fs_edges, mid_s, node_lines, opt_view, pf_edge, push_decl_nodes, push_fs_edges,
    push_node_lines, push_pf_edge,
};
use crate::analysis::render_text::{after_two_lines, mid, pmid, spec_after_two_lines, spec_pmid};
use crate::ast::{BlockDecl, BlockItem, FieldValue, Import};
use crate::text::owned;

verus! {

/// `f` of each file, in order.
pub open spec fn each_file(files: Seq<LoadedFile>, f: spec_fn(LoadedFile) -> Seq<char>) -> Seq<char>
    decreases files.len(),
{
    if files.len() == 0 {
        seq![]
    } else {
        each_file(files.drop_last(), f) + f(files.last())
    }
}

/// `f` of each import, in order.
pub open spec fn each_import(imports: Seq<Import>, f: spec_fn(Import) -> Seq<char>) -> Seq<char>
    decreases imports.len(),
{
    if imports.len() == 0 {
        seq![]
    } else {
        each_import(imports.drop_last(), f) + f(imports.last())
    }
}

// ---------------------------------------------------------------------------
// Markdown
// ---------------------------------------------------------------------------

pub open spec fn slug_or_unnamed(lf: LoadedFile) -> Seq<char> {
    match lf.file.slice {
        Some(s) => s.name.name@,
        None => "<unnamed>"@,
    }
}

/// A line of the slice list; the root is marked.
pub open spec fn slice_list_line(root: Seq<char>, lf: LoadedFile) -> Seq<char> {
    "- `"@ + slug_or_unnamed(lf) + "`"@ + (if spec_path_key(lf.path@) == spec_path_key(root) {
        " *(root)*"@
    } else {
        seq![]
    }) + " — `"@ + lf.path@ + "`\n"@
}

/// What an import names in the dependency graph: the slug of the file it
/// resolved to, else the path it was written with.
pub open spec fn import_target_name(files: Seq<LoadedFile>, lf: LoadedFile, imp: Import) -> Seq<char> {
    match alias_target(lf.imports_resolved@, imp.alias.name@) {
        Some(p) => match file_index_from(files, p, 0) {
            Some(k) => match files[k].file.slice {
                Some(s) => s.name.name@,
                None => imp.path@,
            },
            None => imp.path@,
        },
        None => imp.path@,
    }
}

/// The dependency-graph lines of a file that has imports.
pub open spec fn dependency_lines(files: Seq<LoadedFile>, lf: LoadedFile) -> Seq<char> {
    match lf.file.slice {
        Some(s) => if s.imports@.len() == 0 {
            seq![]
        } else {
            "- `"@ + s.name.name@ + "` imports:\n"@ + each_import(
                s.imports@,
                |imp: Import| "  - `"@ + imp.alias.name@ + "` → `"@ + import_target_name(files, lf, imp) + "`\n"@,
            )
        },
        None => seq![],
    }
}

/// One slice's part of the document: title, file, imports, then its
/// single-file rendering without the title lines.
pub open spec fn slice_section(lf: LoadedFile) -> Seq<char> {
    match lf.file.slice {
        Some(s) => "# Slice: `"@ + s.name.name@ + "`\n\n"@ + "*File: `"@ + lf.path@ + "`*\n\n"@ + (if s.imports@.len()
            == 0 {
            seq![]
        } else {
            "## Imports\n\n"@ + each_import(
                s.imports@,
                |imp: Import| "- `use \""@ + imp.path@ + "\" as "@ + imp.alias.name@ + "`\n"@,
            ) + "\n"@
        }) + spec_after_two_lines(spec_render_markdown(lf.file)) + "\n---\n\n"@,
        None => seq![],
    }
}

/// What [`render_markdown_aggregate`] gives.
pub open spec fn spec_render_markdown_aggregate(ws: WorkingSet) -> Seq<char> {
    let files = ws.files@;
    "# Working set\n\n"@ + "**Root:** `"@ + ws.root@ + "`\n\n"@ + "## Slices in this working set\n\n"@ + each_file(
        files,
        |lf: LoadedFile| slice_list_line(ws.root@, lf),
    ) + "\n"@ + "## Dependency graph\n\n"@ + each_file(files, |lf: LoadedFile| dependency_lines(files, lf))
        + "\n"@ + "---\n\n"@ + each_file(files, |lf: LoadedFile| slice_section(lf))
}

fn import_target_text(files: &Vec<LoadedFile>, lf: &LoadedFile, imp: &Import) -> (r: String)
    ensures
        r@ == import_target_name(files@, *lf, *imp),
{
    match resolved_get(&lf.imports_resolved, imp.alias.name.as_str()) {
        Some(p) => {
            let mut i: usize = 0;
            while i < files.len()
                invariant
                    i <= files@.len(),
                    file_index_from(files@, p@, 0) == file_index_from(files@, p@, i as int),
                    alias_target(lf.imports_resolved@, imp.alias.name@) == Some(p@),
                decreases files@.len() - i,
            {
                if same_path(files[i].path.as_str(), p.as_str()) {
                    assert(file_index_from(files@, p@, i as int) == Some(i as int));
                    let r = match &files[i].file.slice {
                        Some(s) => owned(s.name.name.as_str()),
                        None => owned(imp.path.as_str()),
                    };
                    return r;
                }
                i = i + 1;
            }
            owned(imp.path.as_str())
        },
        None => owned(imp.path.as_str()),
    }
}

fn push_dependency_lines(files: &Vec<LoadedFile>, lf: &LoadedFile, out: &mut String)
    ensures
        final(out)@ == old(out)@ + dependency_lines(files@, *lf),
{
    match &lf.file.slice {
        Some(s) => {
            if s.imports.len() == 0 {
                return;
            }
            out.append("- `");
            out.append(s.name.name.as_str());
            out.append("` imports:\n");
            let ghost start = out@;
            let ghost f = |imp: Import| "  - `"@ + imp.alias.name@ + "` → `"@ + import_target_name(files@, *lf, imp) + "`\n"@;
            let mut k: usize = 0;
            while k < s.imports.len()
                invariant
                    k <= s.imports@.len(),
                    f == (|imp: Import| "  - `"@ + imp.alias.name@ + "` → `"@ + import_target_name(files@, *lf, imp)
                        + "`\n"@),
                    out@ == start + each_import(s.imports@.subrange(0, k as int), f),
                decreases s.imports@.len() - k,
            {
                proof {
                    assert(s.imports@.subrange(0, k as int + 1).drop_last() =~= s.imports@.subrange(0, k as int));
                }
                let imp = &s.imports[k];
                out.append("  - `");
                out.append(imp.alias.name.as_str());
                out.append("` → `");
                let t = import_target_text(files, lf, imp);
                out.append(t.as_str());
                out.append("`\n");
                k = k + 1;
            }
            assert(s.imports@.subrange(0, s.imports@.len() as int) =~= s.imports@);
        },
        None => {},
    }
}

fn push_slice_section(lf: &LoadedFile, out: &mut String)
    ensures
        final(out)@ == old(out)@ + slice_section(*lf),
{
    match &lf.file.slice {
        Some(s) => {
            let ghost s0 = out@;
            out.append("# Slice: `");
            out.append(s.name.name.as_str());
            out.append("`\n\n");
            out.append("*File: `");
            out.append(lf.path.as_str());
            out.append("`*\n\n");
            let ghost s1 = out@;
            if s.imports.len() > 0 {
                out.append("## Imports\n\n");
                let ghost start = out@;
                let ghost f = |imp: Import| "- `use \""@ + imp.path@ + "\" as "@ + imp.alias.name@ + "`\n"@;
                let mut k: usize = 0;
                while k < s.imports.len()
                    invariant
                        k <= s.imports@.len(),
                        f == (|imp: Import| "- `use \""@ + imp.path@ + "\" as "@ + imp.alias.name@ + "`\n"@),
                        out@ == start + each_import(s.imports@.subrange(0, k as int), f),
                    decreases s.imports@.len() - k,
                {
                    proof {
                        assert(s.imports@.subrange(0, k as int + 1).drop_last() =~= s.imports@.subrange(0, k as int));
                    }
                    let imp = &s.imports[k];
                    out.append("- `use \"");
                    out.append(imp.path.as_str());
                    out.append("\" as ");
                    out.append(imp.alias.name.as_str());
                    out.append("`\n");
                    k = k + 1;
                }
                assert(s.imports@.subrange(0, s.imports@.len() as int) =~= s.imports@);
                out.append("\n");
            }
            let ghost s2 = out@;
            let single = render_markdown(&lf.file);
            let body = after_two_lines(single.as_str());
            out.append(body.as_str());
            out.append("\n---\n\n");
            assert(out@ =~= s0 + slice_section(*lf));
        },
        None => {},
    }
}

/// The working set as one markdown document: the slice list (root marked),
/// the dependency graph, then each slice's rendering under its own title.
pub fn render_markdown_aggregate(ws: &WorkingSet) -> (r: String)
    ensures
        r@ == spec_render_markdown_aggregate(*ws),
{
    let files = &ws.files;
    let mut out = owned("# Working set\n\n");
    out.append("**Root:** `");
    out.append(ws.root.as_str());
    out.append("`\n\n");
    out.append("## Slices in this working set\n\n");
    let ghost s0 = out@;
    let ghost f1 = |lf: LoadedFile| slice_list_line(ws.root@, lf);
    let mut i: usize = 0;
    while i < files.len()
        invariant
            i <= files@.len(),
            files@ == ws.files@,
            f1 == (|lf: LoadedFile| slice_list_line(ws.root@, lf)),
            out@ == s0 + each_file(files@.subrange(0, i as int), f1),
        decreases files@.len() - i,
    {
        proof {
            assert(files@.subrange(0, i as int + 1).drop_last() =~= files@.subrange(0, i as int));
        }
        let lf = &files[i];
        out.append("- `");
        match &lf.file.slice {
            Some(s) => out.append(s.name.name.as_str()),
            None => out.append("<unnamed>"),
        }
        out.append("`");
        if same_path(lf.path.as_str(), ws.root.as_str()) {
            out.append(" *(root)*");
        }
        out.append(" — `");
        out.append(lf.path.as_str());
        out.append("`\n");
        i = i + 1;
    }
    assert(files@.subrange(0, files@.len() as int) =~= files@);
    out.append("\n");
    out.append("## Dependency graph\n\n");
    let ghost s1 = out@;
    let ghost f2 = |lf: LoadedFile| dependency_lines(files@, lf);
    let mut i: usize = 0;
    while i < files.len()
        invariant
            i <= files@.len(),
            files@ == ws.files@,
            f2 == (|lf: LoadedFile| dependency_lines(files@, lf)),
            out@ == s1 + each_file(files@.subrange(0, i as int), f2),
        decreases files@.len() - i,
    {
        proof {
            assert(files@.subrange(0, i as int + 1).drop_last() =~= files@.subrange(0, i as int));
        }
        push_dependency_lines(files, &files[i], &mut out);
        i = i + 1;
    }
    out.append("\n");
    out.append("---\n\n");
    let ghost s2 = out@;
    let ghost f3 = |lf: LoadedFile| slice_section(lf);
    let mut i: usize = 0;
    while i < files.len()
        invariant
            i <= files@.len(),
            files@ == ws.files@,
            f3 == (|lf: LoadedFile| slice_section(lf)),
            out@ == s2 + each_file(files@.subrange(0, i as int), f3),
        decreases files@.len() - i,
    {
        proof {
            assert(files@.subrange(0, i as int + 1).drop_last() =~= files@.subrange(0, i as int));
        }
        push_slice_section(&files[i], &mut out);
        i = i + 1;
    }
    assert(out@ =~= spec_render_markdown_aggregate(*ws));
    out
}

// ---------------------------------------------------------------------------
// Mermaid
// ---------------------------------------------------------------------------

/// The slug of the slice at `path`: the last file at that path that has a
/// slice (later files replace earlier ones).
pub open spec fn slug_at(files: Seq<LoadedFile>, path: Seq<char>) -> Option<Seq<char>>
    decreases files.len(),
{
    if files.len() == 0 {
        None
    } else if files.last().file.slice is Some && spec_path_key(files.last().path@) == spec_path_key(path) {
        Some(files.last().file.slice->0.name.name@)
    } else {
        slug_at(files.drop_last(), path)
    }
}

fn slug_at_text<'a>(files: &'a Vec<LoadedFile>, path: &str) -> (r: Option<&'a str>)
    ensures
        match r {
            Some(s) => slug_at(files@, path@) == Some(s@),
            None => slug_at(files@, path@) is None,
        },
{
    let mut i: usize = files.len();
    assert(files@.subrange(0, i as int) =~= files@);
    while i > 0
        invariant
            i <= files@.len(),
            slug_at(files@, path@) == slug_at(files@.subrange(0, i as int), path@),
        decreases i,
    {
        proof {
            assert(files@.subrange(0, i as int).drop_last() =~= files@.subrange(0, i as int - 1));
        }
        let lf = &files[i - 1];
        match &lf.file.slice {
            Some(s) => {
                if same_path(lf.path.as_str(), path) {
                    return Some(s.name.name.as_str());
                }
            },
            None => {},
        }
        i = i - 1;
    }
    None
}

/// An edge line between the block (node `own`) and the target `t`, the
/// block first when `from_block`.
pub open spec fn agg_line(from_block: bool, own: Seq<char>, arrow: Seq<char>, t: Seq<char>) -> Seq<char> {
    if from_block {
        "  "@ + own + arrow + t + "\n"@
    } else {
        "  "@ + t + arrow + own + "\n"@
    }
}

/// The edges to every identifier in a field value: local identifiers
/// within the slice, qualified ones in the slice their alias resolves to
/// (none when it does not resolve), lists item by item.
pub open spec fn value_edges(
    files: Seq<LoadedFile>,
    resolved: Seq<(String, String)>,
    slug: Seq<char>,
    v: FieldValue,
    from_block: bool,
    own: Seq<char>,
    arrow: Seq<char>,
) -> Seq<char>
    decreases v, 1int,
{
    match v {
        FieldValue::Ident(i) => agg_line(from_block, own, arrow, spec_pmid(slug, i.name@)),
        FieldValue::QualifiedIdent { alias, name, .. } => match alias_target(resolved, alias.name@) {
            Some(p) => match slug_at(files, p) {
                Some(ts) => agg_line(from_block, own, arrow, spec_pmid(ts, name.name@)),
                None => seq![],
            },
            None => seq![],
        },
        FieldValue::List { items, .. } => values_edges(files, resolved, slug, items@, from_block, own, arrow),
        _ => seq![],
    }
}

pub open spec fn values_edges(
    files: Seq<LoadedFile>,
    resolved: Seq<(String, String)>,
    slug: Seq<char>,
    vs: Seq<FieldValue>,
    from_block: bool,
    own: Seq<char>,
    arrow: Seq<char>,
) -> Seq<char>
    decreases vs, 0int,
{
    if vs.len() == 0 {
        seq![]
    } else {
        values_edges(files, resolved, slug, vs.drop_last(), from_block, own, arrow) + value_edges(
            files,
            resolved,
            slug,
            vs.last(),
            from_block,
            own,
            arrow,
        )
    }
}

/// Which edges a block of a working-set graph gives.
#[derive(Clone, Copy, PartialEq, Eq, Structural)]
pub enum AggEdges {
    Derives,
    Constrains,
    Mutates,
    Forbidden,
    PostFailure,
}

pub open spec fn agg_kind(e: AggEdges) -> Seq<char> {
    match e {
        AggEdges::Derives => "derived"@,
        AggEdges::Constrains => "association"@,
        AggEdges::Mutates => "event"@,
        AggEdges::Forbidden => "forbidden_state"@,
        AggEdges::PostFailure => "post_failure"@,
    }
}

/// The edges of the block's `key:` field value.
pub open spec fn field_edges(
    files: Seq<LoadedFile>,
    resolved: Seq<(String, String)>,
    slug: Seq<char>,
    b: BlockDecl,
    key: Seq<char>,
    from_block: bool,
    arrow: Seq<char>,
) -> Seq<char> {
    match spec_field_value(b, key) {
        Some(v) => value_edges(files, resolved, slug, v, from_block, spec_pmid(slug, name_or(b, "?"@)), arrow),
        None => seq![],
    }
}

pub open spec fn agg_block_edges(
    files: Seq<LoadedFile>,
    resolved: Seq<(String, String)>,
    slug: Seq<char>,
    e: AggEdges,
    b: BlockDecl,
) -> Seq<char> {
    match e {
        AggEdges::Derives => field_edges(files, resolved, slug, b, "derives_from"@, false, " -.derives.-> "@),
        AggEdges::Constrains => field_edges(files, resolved, slug, b, "over"@, true, " -.constrains.-> "@),
        AggEdges::Mutates => field_edges(files, resolved, slug, b, "mutates"@, true, " ==mutates==> "@),
        AggEdges::Forbidden => fs_edges(Some(slug), b),
        AggEdges::PostFailure => pf_edge(Some(slug), b),
    }
}

pub open spec fn agg_edge_lines(
    files: Seq<LoadedFile>,
    resolved: Seq<(String, String)>,
    slug: Seq<char>,
    e: AggEdges,
    items: Seq<BlockItem>,
) -> Seq<char> {
    blocks_text(items, agg_kind(e), |b: BlockDecl| agg_block_edges(files, resolved, slug, e, b))
}

/// The import edge between two slice subgraphs.
pub open spec fn import_edge(files: Seq<LoadedFile>, resolved: Seq<(String, String)>, slug: Seq<char>, imp: Import) -> Seq<
    char,
> {
    match alias_target(resolved, imp.alias.name@) {
        Some(p) => match slug_at(files, p) {
            Some(ts) => "  "@ + mid_s(slug) + "_box -.imports as "@ + imp.alias.name@ + ".-> "@ + mid_s(ts) + "_box\n"@,
            None => seq![],
        },
        None => seq![],
    }
}

/// A slice's subgraph: its nodes, post-failure rows included.
pub open spec fn subgraph(lf: LoadedFile) -> Seq<char> {
    match lf.file.slice {
        Some(s) => {
            let slug = s.name.name@;
            "  subgraph "@ + mid_s(slug) + "_box [\"slice "@ + slug + "\"]\n"@ + decl_nodes(Some(slug), "    "@, s.items@)
                + node_lines(Some(slug), "    "@, NodeShape::PostFailure, s.items@) + "  end\n"@
        },
        None => seq![],
    }
}

/// A slice's edges in the working-set graph.
pub open spec fn slice_edges(files: Seq<LoadedFile>, lf: LoadedFile) -> Seq<char> {
    match lf.file.slice {
        Some(s) => {
            let slug = s.name.name@;
            let res = lf.imports_resolved@;
            let items = s.items@;
            agg_edge_lines(files, res, slug, AggEdges::Derives, items) + agg_edge_lines(
                files,
                res,
                slug,
                AggEdges::Constrains,
                items,
            ) + agg_edge_lines(files, res, slug, AggEdges::Mutates, items) + agg_edge_lines(
                files,
                res,
                slug,
                AggEdges::Forbidden,
                items,
            ) + agg_edge_lines(files, res, slug, AggEdges::PostFailure, items) + each_import(
                s.imports@,
                |imp: Import| import_edge(files, res, slug, imp),
            )
        },
        None => seq![],
    }
}

/// What [`render_mermaid_aggregate`] gives.
pub open spec fn spec_render_mermaid_aggregate(ws: WorkingSet) -> Seq<char> {
    let files = ws.files@;
    "graph TD\n"@ + "  %% working set rooted at "@ + ws.root@ + "\n"@ + "\n"@ + each_file(files, |lf: LoadedFile| subgraph(lf))
        + "\n"@ + each_file(files, |lf: LoadedFile| slice_edges(files, lf))
}

fn push_value_edges(
    files: &Vec<LoadedFile>,
    resolved: &Vec<(String, String)>,
    slug: &str,
    v: &FieldValue,
    from_block: bool,
    own: &str,
    arrow: &str,
    out: &mut String,
)
    ensures
        final(out)@ == old(out)@ + value_edges(files@, resolved@, slug@, *v, from_block, own@, arrow@),
    decreases v,
{
    let ghost s0 = out@;
    match v {
        FieldValue::Ident(i) => {
            let t = pmid(slug, i.name.as_str());
            push_agg_line(from_block, own, arrow, t.as_str(), out);
        },
        FieldValue::QualifiedIdent { alias, name, .. } => {
            match resolved_get(resolved, alias.name.as_str()) {
                Some(p) => match slug_at_text(files, p.as_str()) {
                    Some(ts) => {
                        let t = pmid(ts, name.name.as_str());
                        push_agg_line(from_block, own, arrow, t.as_str(), out);
                    },
                    None => {},
                },
                None => {},
            }
        },
        FieldValue::List { items, .. } => {
            let ghost start = out@;
            let mut k: usize = 0;
            while k < items.len()
                invariant
                    k <= items@.len(),
                    forall|q: int| 0 <= q < items@.len() ==> decreases_to!(*v => #[trigger] items@[q]),
                    out@ == start + values_edges(
                        files@,
                        resolved@,
                        slug@,
                        items@.subrange(0, k as int),
                        from_block,
                        own@,
                        arrow@,
                    ),
                decreases items@.len() - k,
            {
                proof {
                    assert(items@.subrange(0, k as int + 1).drop_last() =~= items@.subrange(0, k as int));
                    assert(decreases_to!(*v => items@[k as int]));
                }
                push_value_edges(files, resolved, slug, &items[k], from_block, own, arrow, out);
                k = k + 1;
            }
            assert(items@.subrange(0, items@.len() as int) =~= items@);
        },
        _ => {},
    }
}

fn push_agg_line(from_block: bool, own: &str, arrow: &str, t: &str, out: &mut String)
    ensures
        final(out)@ == old(out)@ + agg_line(from_block, own@, arrow@, t@),
{
    out.append("  ");
    if from_block {
        out.append(own);
        out.append(arrow);
        out.append(t);
    } else {
        out.append(t);
        out.append(arrow);
        out.append(own);
    }
    out.append("\n");
}

fn push_field_edges(
    files: &Vec<LoadedFile>,
    resolved: &Vec<(String, String)>,
    slug: &str,
    b: &BlockDecl,
    key: &str,
    from_block: bool,
    arrow: &str,
    out: &mut String,
)
    ensures
        final(out)@ == old(out)@ + field_edges(files@, resolved@, slug@, *b, key@, from_block, arrow@),
{
    match field_value(b, key) {
        Some(v) => {
            let own = pmid(slug, name_or_text(b, "?"));
            push_value_edges(files, resolved, slug, v, from_block, own.as_str(), arrow, out);
        },
        None => {},
    }
}

fn agg_kind_text(e: AggEdges) -> (r: &'static str)
    ensures
        r@ == agg_kind(e),
{
    match e {
        AggEdges::Derives => "derived",
        AggEdges::Constrains => "association",
        AggEdges::Mutates => "event",
        AggEdges::Forbidden => "forbidden_state",
        AggEdges::PostFailure => "post_failure",
    }
}

fn push_agg_block_edges(
    files: &Vec<LoadedFile>,
    resolved: &Vec<(String, String)>,
    slug: &str,
    e: AggEdges,
    b: &BlockDecl,
    out: &mut String,
)
    ensures
        final(out)@ == old(out)@ + agg_block_edges(files@, resolved@, slug@, e, *b),
{
    match e {
        AggEdges::Derives => push_field_edges(files, resolved, slug, b, "derives_from", false, " -.derives.-> ", out),
        AggEdges::Constrains => push_field_edges(files, resolved, slug, b, "over", true, " -.constrains.-> ", out),
        AggEdges::Mutates => push_field_edges(files, resolved, slug, b, "mutates", true, " ==mutates==> ", out),
        AggEdges::Forbidden => push_fs_edges(Some(slug), b, out),
        AggEdges::PostFailure => push_pf_edge(Some(slug), b, out),
    }
}

fn push_agg_edge_lines(
    files: &Vec<LoadedFile>,
    resolved: &Vec<(String, String)>,
    slug: &str,
    e: AggEdges,
    items: &Vec<BlockItem>,
    out: &mut String,
)
    ensures
        final(out)@ == old(out)@ + agg_edge_lines(files@, resolved@, slug@, e, items@),
{
    let kind = agg_kind_text(e);
    let ghost start = out@;
    let ghost f = |b: BlockDecl| agg_block_edges(files@, resolved@, slug@, e, b);
    let mut i: usize = 0;
    while i < items.len()
        invariant
            i <= items@.len(),
            kind@ == agg_kind(e),
            f == (|b: BlockDecl| agg_block_edges(files@, resolved@, slug@, e, b)),
            out@ == start + blocks_text(items@.subrange(0, i as int), kind@, f),
        decreases items@.len() - i,
    {
        proof {
            lemma_prefix(items@, i as int);
        }
        match &items[i] {
            BlockItem::Block(b) => {
                if kind_is(b, kind) {
                    push_agg_block_edges(files, resolved, slug, e, b, out);
                }
            },
            _ => {},
        }
        i = i + 1;
    }
    assert(items@.subrange(0, items@.len() as int) =~= items@);
}

fn push_subgraph(lf: &LoadedFile, out: &mut String)
    ensures
        final(out)@ == old(out)@ + subgraph(*lf),
{
    match &lf.file.slice {
        Some(s) => {
            let ghost s0 = out@;
            let slug = s.name.name.as_str();
            out.append("  subgraph ");
            let m = mid(slug);
            out.append(m.as_str());
            out.append("_box [\"slice ");
            out.append(slug);
            out.append("\"]\n");
            push_decl_nodes(Some(slug), "    ", &s.items, out);
            push_node_lines(Some(slug), "    ", NodeShape::PostFailure, &s.items, out);
            out.append("  end\n");
            assert(out@ =~= s0 + subgraph(*lf));
        },
        None => {},
    }
}

fn push_slice_edges(files: &Vec<LoadedFile>, lf: &LoadedFile, out: &mut String)
    ensures
        final(out)@ == old(out)@ + slice_edges(files@, *lf),
{
    match &lf.file.slice {
        Some(s) => {
            let ghost s0 = out@;
            let slug = s.name.name.as_str();
            let res = &lf.imports_resolved;
            push_agg_edge_lines(files, res, slug, AggEdges::Derives, &s.items, out);
            push_agg_edge_lines(files, res, slug, AggEdges::Constrains, &s.items, out);
            push_agg_edge_lines(files, res, slug, AggEdges::Mutates, &s.items, out);
            push_agg_edge_lines(files, res, slug, AggEdges::Forbidden, &s.items, out);
            push_agg_edge_lines(files, res, slug, AggEdges::PostFailure, &s.items, out);
            let ghost s1 = out@;
            let ghost f = |imp: Import| import_edge(files@, res@, slug@, imp);
            let mut k: usize = 0;
            while k < s.imports.len()
                invariant
                    k <= s.imports@.len(),
                    f == (|imp: Import| import_edge(files@, res@, slug@, imp)),
                    out@ == s1 + each_import(s.imports@.subrange(0, k as int), f),
                decreases s.imports@.len() - k,
            {
                proof {
                    assert(s.imports@.subrange(0, k as int + 1).drop_last() =~= s.imports@.subrange(0, k as int));
                }
                let imp = &s.imports[k];
                match resolved_get(res, imp.alias.name.as_str()) {
                    Some(p) => match slug_at_text(files, p.as_str()) {
                        Some(ts) => {
                            out.append("  ");
                            let a = mid(slug);
                            out.append(a.as_str());
                            out.append("_box -.imports as ");
                            out.append(imp.alias.name.as_str());
                            out.append(".-> ");
                            let b = mid(ts);
                            out.append(b.as_str());
                            out.append("_box\n");
                        },
                        None => {},
                    },
                    None => {},
                }
                k = k + 1;
            }
            assert(s.imports@.subrange(0, s.imports@.len() as int) =~= s.imports@);
            assert(out@ =~= s0 + slice_edges(files@, *lf));
        },
        None => {},
    }
}

/// The working set as one Mermaid graph: a subgraph of nodes per slice,
/// node ids prefixed with the slice slug, then every slice's edges,
/// qualified references crossing into the slice they resolve to, and an
/// edge per resolved import between subgraphs.
pub fn render_mermaid_aggregate(ws: &WorkingSet) -> (r: String)
    ensures
        r@ == spec_render_mermaid_aggregate(*ws),
{
    let files = &ws.files;
    let mut out = owned("graph TD\n");
    out.append("  %% working set rooted at ");
    out.append(ws.root.as_str());
    out.append("\n");
    out.append("\n");
    let ghost s0 = out@;
    let ghost f1 = |lf: LoadedFile| subgraph(lf);
    let mut i: usize = 0;
    while i < files.len()
        invariant
            i <= files@.len(),
            files@ == ws.files@,
            f1 == (|lf: LoadedFile| subgraph(lf)),
            out@ == s0 + each_file(files@.subrange(0, i as int), f1),
        decreases files@.len() - i,
    {
        proof {
            assert(files@.subrange(0, i as int + 1).drop_last() =~= files@.subrange(0, i as int));
        }
        push_subgraph(&files[i], &mut out);
        i = i + 1;
    }
    assert(files@.subrange(0, files@.len() as int) =~= files@);
    out.append("\n");
    let ghost s1 = out@;
    let ghost f2 = |lf: LoadedFile| slice_edges(files@, lf);
    let mut i: usize = 0;
    while i < files.len()
        invariant
            i <= files@.len(),
            files@ == ws.files@,
            f2 == (|lf: LoadedFile| slice_edges(files@, lf)),
            out@ == s1 + each_file(files@.subrange(0, i as int), f2),
        decreases files@.len() - i,
    {
        proof {
            assert(files@.subrange(0, i as int + 1).drop_last() =~= files@.subrange(0, i as int));
        }
        push_slice_edges(files, &files[i], &mut out);
        i = i + 1;
    }
    assert(out@ =~= spec_render_mermaid_aggregate(*ws));
    out
}

} // verus!
