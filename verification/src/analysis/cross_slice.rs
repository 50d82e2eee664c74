//! Cross-slice reference resolution.
//!
//! Over a working set (the root file and every file it imports), checks
//! every `alias.id` qualified reference against the declarations of the
//! file the alias names. The per-file passes keep working file by file;
//! this pass adds the cross-file resolution.

use vstd::prelude::*;

use crate::analysis::index::{is_named, item_name};
use crate::analysis::loader::{
    LoadedFile, WorkingSet, alias_target, keys_distinct, map_recorded, path_key, path_map_find,
    path_map_insert, resolved_get, spec_path_key,
};
use crate::ast::{BlockDecl, BlockItem, FieldValue, File, Ident, MapEntry};
use crate::diagnostic::codes;
use crate::diagnostic::{DiagView, Diagnostic, Severity, dvs, hinted};
use crate::span::Span;
use crate::text::{cat3, owned, str_eq};

verus! {

// ---------------------------------------------------------------------------
// Qualified references
// ---------------------------------------------------------------------------

/// A qualified reference: alias, name, span.
pub type QRef = (Ident, Ident, Span);

/// The qualified references inside a field value, in order (map values are
/// searched, map keys are plain identifiers).
pub open spec fn value_qrefs(v: FieldValue) -> Seq<QRef>
    decreases v, 1int,
{
    match v {
        FieldValue::QualifiedIdent { span, alias, name } => seq![(alias, name, span)],
        FieldValue::List { items, .. } => values_qrefs(items@),
        FieldValue::Mapping { entries, .. } => entries_qrefs(entries@),
        FieldValue::TypeApp { params, .. } => values_qrefs(params@),
        FieldValue::Call { args, .. } => values_qrefs(args@),
        _ => seq![],
    }
}

pub open spec fn values_qrefs(s: Seq<FieldValue>) -> Seq<QRef>
    decreases s, 0int,
{
    if s.len() == 0 {
        seq![]
    } else {
        values_qrefs(s.drop_last()) + value_qrefs(s.last())
    }
}

pub open spec fn entries_qrefs(s: Seq<MapEntry>) -> Seq<QRef>
    decreases s, 0int,
{
    if s.len() == 0 {
        seq![]
    } else {
        entries_qrefs(s.drop_last()) + value_qrefs(s.last().value)
    }
}

pub open spec fn block_qrefs(b: BlockDecl) -> Seq<QRef>
    decreases b, 1int,
{
    items_qrefs(b.items@)
}

pub open spec fn items_qrefs(s: Seq<BlockItem>) -> Seq<QRef>
    decreases s, 0int,
{
    if s.len() == 0 {
        seq![]
    } else {
        items_qrefs(s.drop_last()) + match s.last() {
            BlockItem::Field(f) => value_qrefs(f.value),
            BlockItem::Block(b) => block_qrefs(b),
        }
    }
}

/// The qualified references of a slice's top-level blocks, in order.
pub open spec fn slice_qrefs(items: Seq<BlockItem>) -> Seq<QRef>
    decreases items.len(),
{
    if items.len() == 0 {
        seq![]
    } else {
        slice_qrefs(items.drop_last()) + match items.last() {
            BlockItem::Block(b) => block_qrefs(b),
            _ => seq![],
        }
    }
}

/// The qualified references of a file (none without a slice).
pub open spec fn file_qrefs(f: File) -> Seq<QRef> {
    match f.slice {
        Some(s) => slice_qrefs(s.items@),
        None => seq![],
    }
}

pub open spec fn qref_views<'a>(v: Seq<(&'a Ident, &'a Ident, Span)>) -> Seq<QRef> {
    v.map_values(|q: (&'a Ident, &'a Ident, Span)| (*q.0, *q.1, q.2))
}

fn value_qrefs_into<'a>(value: &'a FieldValue, out: &mut Vec<(&'a Ident, &'a Ident, Span)>)
    ensures
        qref_views(final(out)@) == qref_views(old(out)@) + value_qrefs(*value),
    decreases value,
{
    match value {
        FieldValue::QualifiedIdent { span, alias, name } => {
            out.push((alias, name, *span));
            assert(qref_views(out@) =~= qref_views(old(out)@) + value_qrefs(*value));
        },
        FieldValue::List { items, .. } => values_qrefs_into(value, items, out),
        FieldValue::TypeApp { params, .. } => values_qrefs_into(value, params, out),
        FieldValue::Call { args, .. } => values_qrefs_into(value, args, out),
        FieldValue::Mapping { entries, .. } => {
            let mut k: usize = 0;
            assert(qref_views(out@) =~= qref_views(old(out)@) + entries_qrefs(entries@.subrange(0, 0)));
            while k < entries.len()
                invariant
                    k <= entries@.len(),
                    *value == (FieldValue::Mapping { span: value->Mapping_span, entries: *entries }),
                    qref_views(out@) == qref_views(old(out)@) + entries_qrefs(entries@.subrange(0, k as int)),
                decreases entries@.len() - k,
            {
                proof {
                    assert(entries@.subrange(0, k as int + 1).drop_last() =~= entries@.subrange(0, k as int));
                    assert(value->Mapping_entries == *entries);
                    assert(decreases_to!(*value => value->Mapping_entries));
                    assert(decreases_to!(*entries => entries@));
                    assert(decreases_to!(entries@ => entries@[k as int]));
                    assert(decreases_to!(entries@[k as int] => entries@[k as int].value));
                }
                value_qrefs_into(&entries[k].value, out);
                k = k + 1;
            }
            assert(entries@.subrange(0, entries@.len() as int) =~= entries@);
        },
        _ => {
            assert(qref_views(out@) =~= qref_views(old(out)@) + value_qrefs(*value));
        },
    }
}

fn values_qrefs_into<'a>(parent: &'a FieldValue, vals: &'a Vec<FieldValue>, out: &mut Vec<(&'a Ident, &'a Ident, Span)>)
    requires
        value_qrefs(*parent) == values_qrefs(vals@),
        forall|k: int| 0 <= k < vals@.len() ==> decreases_to!(*parent => #[trigger] vals@[k]),
    ensures
        qref_views(final(out)@) == qref_views(old(out)@) + value_qrefs(*parent),
    decreases parent, 0int,
{
    let mut k: usize = 0;
    assert(qref_views(out@) =~= qref_views(old(out)@) + values_qrefs(vals@.subrange(0, 0)));
    while k < vals.len()
        invariant
            k <= vals@.len(),
            forall|q: int| 0 <= q < vals@.len() ==> decreases_to!(*parent => #[trigger] vals@[q]),
            qref_views(out@) == qref_views(old(out)@) + values_qrefs(vals@.subrange(0, k as int)),
        decreases vals@.len() - k,
    {
        proof {
            assert(vals@.subrange(0, k as int + 1).drop_last() =~= vals@.subrange(0, k as int));
            assert(decreases_to!(*parent => vals@[k as int]));
        }
        value_qrefs_into(&vals[k], out);
        k = k + 1;
    }
    assert(vals@.subrange(0, vals@.len() as int) =~= vals@);
}

fn block_qrefs_into<'a>(block: &'a BlockDecl, out: &mut Vec<(&'a Ident, &'a Ident, Span)>)
    ensures
        qref_views(final(out)@) == qref_views(old(out)@) + block_qrefs(*block),
    decreases block,
{
    let items = &block.items;
    let mut k: usize = 0;
    assert(qref_views(out@) =~= qref_views(old(out)@) + items_qrefs(items@.subrange(0, 0)));
    while k < items.len()
        invariant
            k <= items@.len(),
            items@ == block.items@,
            qref_views(out@) == qref_views(old(out)@) + items_qrefs(items@.subrange(0, k as int)),
        decreases items@.len() - k,
    {
        proof {
            assert(items@.subrange(0, k as int + 1).drop_last() =~= items@.subrange(0, k as int));
        }
        match &items[k] {
            BlockItem::Field(f) => value_qrefs_into(&f.value, out),
            BlockItem::Block(inner) => {
                proof {
                    assert(decreases_to!(*block => block.items));
                    assert(decreases_to!(block.items => block.items@));
                    assert(decreases_to!(block.items@ => block.items@[k as int]));
                    assert(decreases_to!(block.items@[k as int] => *inner));
                }
                block_qrefs_into(inner, out);
            },
        }
        k = k + 1;
    }
    assert(items@.subrange(0, items@.len() as int) =~= items@);
}

/// The qualified references of a file, in order.
pub(crate) fn collect_qrefs<'a>(file: &'a File) -> (r: Vec<(&'a Ident, &'a Ident, Span)>)
    ensures
        qref_views(r@) == file_qrefs(*file),
{
    let mut out: Vec<(&'a Ident, &'a Ident, Span)> = Vec::new();
    match &file.slice {
        Some(slice) => {
            let items = &slice.items;
            let mut k: usize = 0;
            assert(qref_views(out@) =~= slice_qrefs(items@.subrange(0, 0)));
            while k < items.len()
                invariant
                    k <= items@.len(),
                    items@ == slice.items@,
                    qref_views(out@) == slice_qrefs(items@.subrange(0, k as int)),
                decreases items@.len() - k,
            {
                proof {
                    assert(items@.subrange(0, k as int + 1).drop_last() =~= items@.subrange(0, k as int));
                }
                match &items[k] {
                    BlockItem::Block(b) => block_qrefs_into(b, &mut out),
                    _ => {},
                }
                k = k + 1;
            }
            assert(items@.subrange(0, items@.len() as int) =~= items@);
        },
        None => {
            assert(qref_views(out@) =~= seq![]);
        },
    }
    out
}

// ---------------------------------------------------------------------------
// Resolution
// ---------------------------------------------------------------------------

/// The slot kinds a qualified reference may name.
pub open spec fn is_slot(it: BlockItem) -> bool {
    is_named(it, "cell"@) || is_named(it, "derived"@) || is_named(it, "association"@) || is_named(it, "event"@)
        || is_named(it, "post_failure"@) || is_named(it, "forbidden_state"@) || is_named(it, "kill_test"@)
}

/// The file declares a slot named `n` at its top level.
pub open spec fn declares_slot(items: Seq<BlockItem>, n: Seq<char>) -> bool
    decreases items.len(),
{
    items.len() > 0 && (declares_slot(items.drop_last(), n) || (is_slot(items.last()) && item_name(items.last()) == n))
}

pub open spec fn file_declares(f: File, n: Seq<char>) -> bool {
    match f.slice {
        Some(s) => declares_slot(s.items@, n),
        None => false,
    }
}

/// The last file of the set at `path` (later files win, as a map built
/// from the set in order would have it).
pub open spec fn last_file_at(files: Seq<LoadedFile>, path: Seq<char>) -> Option<int>
    decreases files.len(),
{
    if files.len() == 0 {
        None
    } else if spec_path_key(files.last().path@) == spec_path_key(path) {
        Some(files.len() - 1)
    } else {
        last_file_at(files.drop_last(), path)
    }
}

pub open spec fn unresolved_alias_diag(alias: Ident) -> DiagView {
    hinted(
        codes::E_LOADER_UNRESOLVED_ALIAS,
        Severity::Error,
        "qualified reference uses unknown alias `"@ + alias.name@ + "` — no `use` declaration imports it"@,
        alias.span,
        "add `use \"<path>\" as "@ + alias.name@ + "` to the top of this slice, or fix the alias"@,
    )
}

pub open spec fn unresolved_ref_diag(alias: Ident, name: Ident, target: Seq<char>) -> DiagView {
    hinted(
        codes::E_LOADER_QUALIFIED_REF_UNRESOLVED,
        Severity::Error,
        "qualified reference `"@ + alias.name@ + "."@ + name.name@ + "` does not resolve in imported slice `"@ + target
            + "`"@,
        name.span,
        "verify the imported slice declares this id, or check the alias points at the right file"@,
    )
}

/// What one qualified reference of `lf` gives.
pub open spec fn qref_diag(files: Seq<LoadedFile>, lf: LoadedFile, q: QRef) -> Seq<DiagView> {
    match alias_target(lf.imports_resolved@, q.0.name@) {
        None => seq![unresolved_alias_diag(q.0)],
        Some(p) => match last_file_at(files, p) {
            None => seq![],
            Some(k) => if file_declares(files[k].file, q.1.name@) {
                seq![]
            } else {
                seq![unresolved_ref_diag(q.0, q.1, p)]
            },
        },
    }
}

pub open spec fn qrefs_diags(files: Seq<LoadedFile>, lf: LoadedFile, qs: Seq<QRef>) -> Seq<DiagView>
    decreases qs.len(),
{
    if qs.len() == 0 {
        seq![]
    } else {
        qrefs_diags(files, lf, qs.drop_last()) + qref_diag(files, lf, qs.last())
    }
}

/// Everything resolution reports for the file `lf` of the set.
pub open spec fn file_resolution(files: Seq<LoadedFile>, lf: LoadedFile) -> Seq<DiagView> {
    qrefs_diags(files, lf, file_qrefs(lf.file))
}

fn declares_slot_exec(file: &File, n: &str) -> (r: bool)
    ensures
        r == file_declares(*file, n@),
{
    let slice = match &file.slice {
        Some(s) => s,
        None => return false,
    };
    let items = &slice.items;
    let mut found = false;
    let mut k: usize = 0;
    while k < items.len()
        invariant
            k <= items@.len(),
            items@ == slice.items@,
            found == declares_slot(items@.subrange(0, k as int), n@),
        decreases items@.len() - k,
    {
        proof {
            assert(items@.subrange(0, k as int + 1).drop_last() =~= items@.subrange(0, k as int));
        }
        match &items[k] {
            BlockItem::Block(b) => {
                match crate::analysis::nav::block_name_str(b) {
                    Some(name) => {
                        let k_ = &b.kind.name;
                        let slot = crate::text::is_lit(k_, "cell") || crate::text::is_lit(k_, "derived")
                            || crate::text::is_lit(k_, "association") || crate::text::is_lit(k_, "event")
                            || crate::text::is_lit(k_, "post_failure") || crate::text::is_lit(
                            k_,
                            "forbidden_state",
                        ) || crate::text::is_lit(k_, "kill_test");
                        let hit = slot && str_eq(name, n);
                        found = found || hit;
                    },
                    None => {},
                }
            },
            _ => {},
        }
        k = k + 1;
    }
    assert(items@.subrange(0, items@.len() as int) =~= items@);
    found
}

/// The index of the last file of the set at `path`.
fn last_file_index(files: &Vec<LoadedFile>, path: &str) -> (r: Option<usize>)
    ensures
        match r {
            Some(k) => last_file_at(files@, path@) == Some(k as int) && k < files@.len(),
            None => last_file_at(files@, path@) is None,
        },
{
    let key = path_key(path);
    let mut i: usize = files.len();
    assert(files@.subrange(0, i as int) =~= files@);
    while i > 0
        invariant
            i <= files@.len(),
            key@ == spec_path_key(path@),
            last_file_at(files@, path@) == last_file_at(files@.subrange(0, i as int), path@),
        decreases i,
    {
        let ghost pre = files@.subrange(0, i as int);
        assert(pre.drop_last() =~= files@.subrange(0, i as int - 1));
        let k = path_key(files[i - 1].path.as_str());
        if str_eq(k.as_str(), key.as_str()) {
            return Some(i - 1);
        }
        i = i - 1;
    }
    None
}

/// What resolution reports for the file `lf` of the set.
pub(crate) fn resolve_file(files: &Vec<LoadedFile>, lf: &LoadedFile) -> (r: Vec<Diagnostic>)
    ensures
        dvs(r@) == file_resolution(files@, *lf),
{
    let qrefs = collect_qrefs(&lf.file);
    let ghost qs = qref_views(qrefs@);
    let mut out: Vec<Diagnostic> = Vec::new();
    let mut k: usize = 0;
    assert(dvs(out@) =~= qrefs_diags(files@, *lf, qs.subrange(0, 0)));
    while k < qrefs.len()
        invariant
            k <= qrefs@.len(),
            qs == qref_views(qrefs@),
            qs == file_qrefs(lf.file),
            dvs(out@) == qrefs_diags(files@, *lf, qs.subrange(0, k as int)),
        decreases qrefs@.len() - k,
    {
        let (alias, name, _span) = qrefs[k];
        proof {
            assert(qs.subrange(0, k as int + 1).drop_last() =~= qs.subrange(0, k as int));
            assert(qs[k as int] == (*alias, *name, qrefs@[k as int].2));
        }
        let ghost o = out@;
        match resolved_get(&lf.imports_resolved, alias.name.as_str()) {
            None => {
                let msg = cat3("qualified reference uses unknown alias `", alias.name.as_str(), "` — no `use` declaration imports it");
                let hint = cat3("add `use \"<path>\" as ", alias.name.as_str(), "` to the top of this slice, or fix the alias");
                out.push(Diagnostic::error(codes::E_LOADER_UNRESOLVED_ALIAS, alias.span, msg).with_hint(hint));
            },
            Some(target) => {
                match last_file_index(files, target.as_str()) {
                    None => {},
                    Some(t) => {
                        if !declares_slot_exec(&files[t].file, name.name.as_str()) {
                            let mut msg = cat3("qualified reference `", alias.name.as_str(), ".");
                            msg.append(name.name.as_str());
                            msg.append("` does not resolve in imported slice `");
                            msg.append(target.as_str());
                            msg.append("`");
                            let hint = owned("verify the imported slice declares this id, or check the alias points at the right file");
                            out.push(
                                Diagnostic::error(codes::E_LOADER_QUALIFIED_REF_UNRESOLVED, name.span, msg).with_hint(hint),
                            );
                        }
                    },
                }
            },
        }
        assert(dvs(out@) =~= dvs(o) + qref_diag(files@, *lf, qs[k as int]));
        k = k + 1;
    }
    assert(qs.subrange(0, qs.len() as int) =~= qs);
    out
}

/// Qualified-reference resolution over the set: for each file with
/// something to report, its diagnostics, keyed by its path.
pub fn resolve(working_set: &WorkingSet) -> (r: Vec<(String, Vec<Diagnostic>)>)
    ensures
        keys_distinct(r@),
        forall|j: int|
            0 <= j < r@.len() ==> (#[trigger] r@[j]).1@.len() > 0 && exists|i: int|
                0 <= i < working_set.files@.len() && spec_path_key(working_set.files@[i].path@) == spec_path_key(
                    r@[j].0@,
                ) && dvs(r@[j].1@) == file_resolution(working_set.files@, working_set.files@[i]),
        forall|i: int|
            0 <= i < working_set.files@.len() && file_resolution(
                working_set.files@,
                #[trigger] working_set.files@[i],
            ).len() > 0 ==> exists|j: int|
                0 <= j < r@.len() && spec_path_key(r@[j].0@) == spec_path_key(working_set.files@[i].path@),
{
    let files = &working_set.files;
    let mut out: Vec<(String, Vec<Diagnostic>)> = Vec::new();
    let mut i: usize = 0;
    while i < files.len()
        invariant
            i <= files@.len(),
            files@ == working_set.files@,
            keys_distinct(out@),
            forall|j: int|
                0 <= j < out@.len() ==> (#[trigger] out@[j]).1@.len() > 0 && exists|q: int|
                    0 <= q < files@.len() && spec_path_key(files@[q].path@) == spec_path_key(out@[j].0@) && dvs(
                        out@[j].1@,
                    ) == file_resolution(files@, files@[q]),
            forall|q: int|
                0 <= q < i && file_resolution(files@, #[trigger] files@[q]).len() > 0 ==> exists|j: int|
                    0 <= j < out@.len() && spec_path_key(out@[j].0@) == spec_path_key(files@[q].path@),
        decreases files@.len() - i,
    {
        let diagnostics = resolve_file(files, &files[i]);
        if diagnostics.len() > 0 {
            let ghost o = out@;
            let ghost d = diagnostics;
            path_map_insert(&mut out, owned(files[i].path.as_str()), diagnostics);
            proof {
                assert forall|j: int| 0 <= j < out@.len() implies (#[trigger] out@[j]).1@.len() > 0 && exists|q: int|
                    0 <= q < files@.len() && spec_path_key(files@[q].path@) == spec_path_key(out@[j].0@) && dvs(
                        out@[j].1@,
                    ) == file_resolution(files@, files@[q]) by {
                    if spec_path_key(out@[j].0@) == spec_path_key(files@[i as int].path@) && out@[j].1 == d {
                    } else {
                        let k = choose|k: int| 0 <= k < o.len() && o[k] == out@[j];
                    }
                }
                assert forall|q: int|
                    0 <= q < i + 1 && file_resolution(files@, #[trigger] files@[q]).len() > 0 implies exists|j: int|
                        0 <= j < out@.len() && spec_path_key(out@[j].0@) == spec_path_key(files@[q].path@) by {
                    if q < i {
                        let j0 = choose|j0: int|
                            0 <= j0 < o.len() && spec_path_key(o[j0].0@) == spec_path_key(files@[q].path@);
                        if spec_path_key(o[j0].0@) != spec_path_key(files@[i as int].path@) {
                            assert(spec_path_key((#[trigger] o[j0]).0@) != spec_path_key(files@[i as int].path@));
                        } else {
                            let j1 = choose|j1: int|
                                0 <= j1 < out@.len() && spec_path_key((#[trigger] out@[j1]).0@) == spec_path_key(
                                    files@[i as int].path@,
                                ) && out@[j1].1 == d;
                        }
                    } else {
                        let j1 = choose|j1: int|
                            0 <= j1 < out@.len() && spec_path_key((#[trigger] out@[j1]).0@) == spec_path_key(
                                files@[i as int].path@,
                            ) && out@[j1].1 == d;
                    }
                }
            }
        }
        i = i + 1;
    }
    out
}

// ---------------------------------------------------------------------------
// Ids consumed across files
// ---------------------------------------------------------------------------

/// Some file of the set names `name` in the file whose normal-form path is
/// `key`, through a qualified reference whose alias resolves there.
pub open spec fn is_cross_ref(files: Seq<LoadedFile>, key: Seq<char>, name: Seq<char>) -> bool {
    exists|i: int, j: int|
        0 <= i < files.len() && 0 <= j < file_qrefs(files[i].file).len() && (alias_target(
            files[i].imports_resolved@,
            (#[trigger] file_qrefs(files[i].file)[j]).0.name@,
        ) matches Some(p) && spec_path_key(p) == key) && file_qrefs(files[i].file)[j].1.name@ == name
}

/// What [`cross_referenced_ids`] records: one entry per file, the names
/// other files reach in it through qualified references.
pub open spec fn records_cross_refs(files: Seq<LoadedFile>, m: Seq<(String, Vec<String>)>) -> bool {
    &&& keys_distinct(m)
    &&& forall|j: int, k: int|
        0 <= j < m.len() && 0 <= k < m[j].1@.len() ==> is_cross_ref(
            files,
            spec_path_key(m[j].0@),
            (#[trigger] m[j].1@[k])@,
        )
}

fn contains_str(v: &Vec<String>, s: &str) -> (r: bool)
    ensures
        r == exists|k: int| 0 <= k < v@.len() && (#[trigger] v@[k])@ == s@,
{
    let mut i: usize = 0;
    while i < v.len()
        invariant
            i <= v@.len(),
            forall|k: int| 0 <= k < i ==> (#[trigger] v@[k])@ != s@,
        decreases v@.len() - i,
    {
        if str_eq(v[i].as_str(), s) {
            return true;
        }
        i = i + 1;
    }
    false
}

/// For every file whose ids other files reach through qualified
/// references, those ids (each once), keyed by the file's path. Used to
/// keep cells consumed across files from being reported unused.
pub fn cross_referenced_ids(working_set: &WorkingSet) -> (r: Vec<(String, Vec<String>)>)
    ensures
        records_cross_refs(working_set.files@, r@),
        forall|i: int, j: int|
            0 <= i < working_set.files@.len() && 0 <= j < file_qrefs(working_set.files@[i].file).len() ==> (
            alias_target(
                working_set.files@[i].imports_resolved@,
                (#[trigger] file_qrefs(working_set.files@[i].file)[j]).0.name@,
            ) matches Some(p) ==> has_ref(r@, spec_path_key(p), file_qrefs(working_set.files@[i].file)[j].1.name@)),
{
    let files = &working_set.files;
    let mut out: Vec<(String, Vec<String>)> = Vec::new();
    let mut i: usize = 0;
    while i < files.len()
        invariant
            i <= files@.len(),
            files@ == working_set.files@,
            records_cross_refs(files@, out@),
            forall|a: int, j: int|
                0 <= a < i && 0 <= j < file_qrefs(files@[a].file).len() ==> (alias_target(
                    files@[a].imports_resolved@,
                    (#[trigger] file_qrefs(files@[a].file)[j]).0.name@,
                ) matches Some(p) ==> has_ref(out@, spec_path_key(p), file_qrefs(files@[a].file)[j].1.name@)),
        decreases files@.len() - i,
    {
        let lf = &files[i];
        let qrefs = collect_qrefs(&lf.file);
        let ghost qs = qref_views(qrefs@);
        let mut n: usize = 0;
        while n < qrefs.len()
            invariant
                n <= qrefs@.len(),
                i < files@.len(),
                *lf == files@[i as int],
                qs == qref_views(qrefs@),
                qs == file_qrefs(lf.file),
                records_cross_refs(files@, out@),
                forall|a: int, j: int|
                    0 <= a < i && 0 <= j < file_qrefs(files@[a].file).len() ==> (alias_target(
                        files@[a].imports_resolved@,
                        (#[trigger] file_qrefs(files@[a].file)[j]).0.name@,
                    ) matches Some(p) ==> has_ref(out@, spec_path_key(p), file_qrefs(files@[a].file)[j].1.name@)),
                forall|j: int|
                    0 <= j < n ==> (alias_target(lf.imports_resolved@, (#[trigger] qs[j]).0.name@) matches Some(p)
                        ==> has_ref(out@, spec_path_key(p), qs[j].1.name@)),
            decreases qrefs@.len() - n,
        {
            let (alias, name, _span) = qrefs[n];
            proof {
                assert(qs[n as int] == (*alias, *name, qrefs@[n as int].2));
            }
            match resolved_get(&lf.imports_resolved, alias.name.as_str()) {
                Some(target) => {
                    let ghost o = out@;
                    proof {
                        assert(is_cross_ref(files@, spec_path_key(target@), name.name@)) by {
                            assert(file_qrefs(files@[i as int].file)[n as int] == qs[n as int]);
                        }
                    }
                    add_cross_ref(&mut out, target.as_str(), name.name.as_str(), Ghost(files@));
                },
                None => {},
            }
            n = n + 1;
        }
        proof {
            assert forall|a: int, j: int|
                0 <= a < i + 1 && 0 <= j < file_qrefs(files@[a].file).len() implies (alias_target(
                    files@[a].imports_resolved@,
                    (#[trigger] file_qrefs(files@[a].file)[j]).0.name@,
                ) matches Some(p) ==> has_ref(out@, spec_path_key(p), file_qrefs(files@[a].file)[j].1.name@)) by {
                if a == i {
                    assert(file_qrefs(files@[a].file)[j] == qs[j]);
                }
            }
        }
        i = i + 1;
    }
    out
}

/// What adding a cross reference keeps: every recorded (file, name) stays.
pub open spec fn keeps_refs(o: Seq<(String, Vec<String>)>, m: Seq<(String, Vec<String>)>) -> bool {
    forall|e: int, k: int|
        0 <= e < o.len() && 0 <= k < o[e].1@.len() ==> has_ref(m, spec_path_key(o[e].0@), (#[trigger] o[e].1@[k])@)
}

/// `m` records `name` for the file whose normal-form path is `key`.
pub open spec fn has_ref(m: Seq<(String, Vec<String>)>, key: Seq<char>, name: Seq<char>) -> bool {
    exists|e: int, k: int|
        0 <= e < m.len() && 0 <= k < m[e].1@.len() && spec_path_key(m[e].0@) == key && (#[trigger] m[e].1@[k])@
            == name
}

/// Record `name` as reached in the file `path` names.
fn add_cross_ref(m: &mut Vec<(String, Vec<String>)>, path: &str, name: &str, Ghost(files): Ghost<Seq<LoadedFile>>)
    requires
        records_cross_refs(files, old(m)@),
        is_cross_ref(files, spec_path_key(path@), name@),
    ensures
        records_cross_refs(files, final(m)@),
        keeps_refs(old(m)@, final(m)@),
        has_ref(final(m)@, spec_path_key(path@), name@),
{
    let ghost o = m@;
    match path_map_find(m, path) {
        Some(i) => {
            let (p, mut names) = m.remove(i);
            let ghost before = names@;
            assert(o[i as int] == (p, names));
            if !contains_str(&names, name) {
                names.push(owned(name));
            }
            let ghost after = names@;
            m.insert(i, (p, names));
            proof {
                assert(m@ == o.update(i as int, (p, names)));
                let nk = if exists|k: int| 0 <= k < before.len() && (#[trigger] before[k])@ == name@ {
                    choose|k: int| 0 <= k < before.len() && (#[trigger] before[k])@ == name@
                } else {
                    before.len() as int
                };
                assert(m@[i as int].1@[nk]@ == name@);
                assert forall|a: int, b: int| 0 <= a < b < m@.len() implies spec_path_key((#[trigger] m@[a]).0@)
                    != spec_path_key((#[trigger] m@[b]).0@) by {
                    assert(m@[a].0 == o[a].0);
                    assert(m@[b].0 == o[b].0);
                }
                assert forall|j: int, k: int| 0 <= j < m@.len() && 0 <= k < m@[j].1@.len() implies is_cross_ref(
                    files,
                    spec_path_key(m@[j].0@),
                    (#[trigger] m@[j].1@[k])@,
                ) by {
                    if j != i || k < before.len() {
                        assert(o[j].1@[k] == m@[j].1@[k]);
                    }
                }
                assert forall|e: int, k: int| 0 <= e < o.len() && 0 <= k < o[e].1@.len() implies has_ref(
                    m@,
                    spec_path_key(o[e].0@),
                    (#[trigger] o[e].1@[k])@,
                ) by {
                    assert(m@[e].0 == o[e].0);
                    assert(k < m@[e].1@.len());
                    assert(m@[e].1@[k] == o[e].1@[k]);
                }
                assert(keeps_refs(o, m@));
            }
        },
        None => {
            let mut names: Vec<String> = Vec::new();
            names.push(owned(name));
            let ghost nv = names;
            path_map_insert(m, owned(path), names);
            proof {
                let e0 = choose|j: int|
                    0 <= j < m@.len() && spec_path_key((#[trigger] m@[j]).0@) == spec_path_key(path@) && m@[j].1 == nv;
                assert(m@[e0].1@[0]@ == name@);
                assert forall|j: int, k: int| 0 <= j < m@.len() && 0 <= k < m@[j].1@.len() implies is_cross_ref(
                    files,
                    spec_path_key(m@[j].0@),
                    (#[trigger] m@[j].1@[k])@,
                ) by {
                    if !(spec_path_key(m@[j].0@) == spec_path_key(path@) && m@[j].1 == nv) {
                        let q = choose|q: int| 0 <= q < o.len() && o[q] == m@[j];
                        assert(o[q].1@[k] == m@[j].1@[k]);
                    }
                }
                assert forall|e: int, k: int| 0 <= e < o.len() && 0 <= k < o[e].1@.len() implies has_ref(
                    m@,
                    spec_path_key(o[e].0@),
                    (#[trigger] o[e].1@[k])@,
                ) by {
                    assert(spec_path_key((#[trigger] o[e]).0@) != spec_path_key(path@));
                    let j = choose|j: int| 0 <= j < m@.len() && m@[j] == o[e];
                    assert(m@[j].1@[k] == o[e].1@[k]);
                    assert(m@[j].0 == o[e].0);
                }
                assert(keeps_refs(o, m@));
            }
        },
    }
}

} // verus!
