//! Composition warnings over a working set.
//!
//! - W0273 unused import: a `use "..." as <alias>` with no `<alias>.<id>`
//!   qualified reference in the importing slice.
//! - W0274 duplicate import target: two `use` declarations of one slice
//!   that resolve to the same file under different aliases.
//! - W0275 imported id shadowed by a local id: the slice references
//!   `<alias>.<id>` and also declares a local `<id>`.
//!
//! Warnings only; they never block walk completion.

use vstd::prelude::*;

use crate::analysis::cross_slice::{QRef, collect_qrefs, file_qrefs, last_file_at, qref_views};
use crate::analysis::index::{item_name};
use crate::analysis::loader::{
    LoadedFile, WorkingSet, alias_target, keys_distinct, path_key, path_map_insert, resolved_get,
    spec_path_key,
};
use crate::analysis::nav::{block_name_str, spec_block_name_ident};
use crate::ast::{BlockItem, File, Import};
use crate::diagnostic::codes;
use crate::diagnostic::{DiagView, Diagnostic, Severity, dvs, hinted};
use crate::text::{cat, cat3, owned, str_eq};

verus! {

/// Some qualified reference of the file uses `alias`.
pub open spec fn alias_used(qs: Seq<QRef>, alias: Seq<char>) -> bool {
    exists|j: int| 0 <= j < qs.len() && (#[trigger] qs[j]).0.name@ == alias
}

pub open spec fn unused_import_diag(im: Import) -> DiagView {
    hinted(
        codes::W_COMP_UNUSED_IMPORT,
        Severity::Warning,
        "import `"@ + im.alias.name@ + "` is declared but no `"@ + im.alias.name@ + ".<id>` qualified reference uses it"@,
        im.span,
        "either reference an id from this import via `<alias>.<id>`, or remove the `use` declaration"@,
    )
}

pub open spec fn unused_imports(imports: Seq<Import>, qs: Seq<QRef>, n: int) -> Seq<DiagView>
    decreases n,
{
    if n <= 0 {
        seq![]
    } else {
        unused_imports(imports, qs, n - 1) + if alias_used(qs, imports[n - 1].alias.name@) {
            seq![]
        } else {
            seq![unused_import_diag(imports[n - 1])]
        }
    }
}

/// The first import before `i` whose resolved target is the same file as
/// `t`, scanning from `j`.
pub open spec fn prior_alias(imports: Seq<Import>, m: Seq<(String, String)>, t: Seq<char>, j: int, i: int) -> Option<
    Seq<char>,
>
    decreases i - j,
{
    if j < 0 || j >= i {
        None
    } else if (alias_target(m, imports[j].alias.name@) matches Some(tj) && spec_path_key(tj) == spec_path_key(t)) {
        Some(imports[j].alias.name@)
    } else {
        prior_alias(imports, m, t, j + 1, i)
    }
}

pub open spec fn duplicate_target_diag(im: Import, prior: Seq<char>, t: Seq<char>) -> DiagView {
    hinted(
        codes::W_COMP_DUPLICATE_IMPORT_TARGET,
        Severity::Warning,
        "imports `"@ + prior + "` and `"@ + im.alias.name@ + "` both resolve to `"@ + t
            + "` — consider collapsing to one alias"@,
        im.span,
        "multiple aliases for the same canonical file is rarely intentional; rename one or remove the duplicate `use`"@,
    )
}

pub open spec fn duplicate_targets(imports: Seq<Import>, m: Seq<(String, String)>, n: int) -> Seq<DiagView>
    decreases n,
{
    if n <= 0 {
        seq![]
    } else {
        duplicate_targets(imports, m, n - 1) + match alias_target(m, imports[n - 1].alias.name@) {
            None => seq![],
            Some(t) => match prior_alias(imports, m, t, 0, n - 1) {
                None => seq![],
                Some(p) => seq![duplicate_target_diag(imports[n - 1], p, t)],
            },
        }
    }
}

/// The item is a block named `n`.
pub open spec fn names_item(it: BlockItem, n: Seq<char>) -> bool {
    it is Block && (spec_block_name_ident(it->Block_0) matches Some(i) && i.name@ == n)
}

/// The file declares a top-level block named `n` (of any kind).
pub open spec fn declares_any(f: File, n: Seq<char>) -> bool {
    match f.slice {
        Some(s) => exists|k: int| 0 <= k < s.items@.len() && names_item(#[trigger] s.items@[k], n),
        None => false,
    }
}

/// A qualified reference shadows a local id: the slice declares the name
/// locally and the aliased file declares it too.
pub open spec fn shadows(files: Seq<LoadedFile>, lf: LoadedFile, q: QRef) -> bool {
    &&& last_file_at(files, lf.path@) matches Some(l) && declares_any(files[l].file, q.1.name@)
    &&& alias_target(lf.imports_resolved@, q.0.name@) matches Some(t) && (last_file_at(files, t) matches Some(k)
        && declares_any(files[k].file, q.1.name@))
}

pub open spec fn shadow_diag(q: QRef) -> DiagView {
    hinted(
        codes::W_COMP_IMPORTED_ID_SHADOWED,
        Severity::Warning,
        "qualified reference `"@ + q.0.name@ + "."@ + q.1.name@ + "` shadows a local declaration also named `"@
            + q.1.name@ + "` in this slice — readers may confuse the two"@,
        q.2,
        "rename the local declaration to disambiguate, or use the qualified form everywhere if the local one is intentional"@,
    )
}

/// The `(alias, name)` pair of `qs[i]` already occurred before `i`.
pub open spec fn pair_seen(qs: Seq<QRef>, i: int) -> bool {
    exists|j: int| 0 <= j < i && (#[trigger] qs[j]).0.name@ == qs[i].0.name@ && qs[j].1.name@ == qs[i].1.name@
}

pub open spec fn shadow_diags(files: Seq<LoadedFile>, lf: LoadedFile, qs: Seq<QRef>, n: int) -> Seq<DiagView>
    decreases n,
{
    if n <= 0 {
        seq![]
    } else {
        shadow_diags(files, lf, qs, n - 1) + if shadows(files, lf, qs[n - 1]) && !pair_seen(qs, n - 1) {
            seq![shadow_diag(qs[n - 1])]
        } else {
            seq![]
        }
    }
}

/// Every composition warning for the file `lf` of the set.
pub open spec fn file_composition(files: Seq<LoadedFile>, lf: LoadedFile) -> Seq<DiagView> {
    match lf.file.slice {
        None => seq![],
        Some(s) => {
            let qs = file_qrefs(lf.file);
            let ims = s.imports@;
            unused_imports(ims, qs, ims.len() as int) + duplicate_targets(ims, lf.imports_resolved@, ims.len() as int)
                + shadow_diags(files, lf, qs, qs.len() as int)
        },
    }
}

fn declares_any_exec(f: &File, n: &str) -> (r: bool)
    ensures
        r == declares_any(*f, n@),
{
    let slice = match &f.slice {
        Some(s) => s,
        None => return false,
    };
    let items = &slice.items;
    let mut k: usize = 0;
    while k < items.len()
        invariant
            k <= items@.len(),
            items@ == slice.items@,
            f.slice == Some(*slice),
            forall|q: int| 0 <= q < k ==> !names_item(#[trigger] items@[q], n@),
        decreases items@.len() - k,
    {
        match &items[k] {
            BlockItem::Block(b) => {
                match block_name_str(b) {
                    Some(name) => {
                        if str_eq(name, n) {
                            assert(names_item(items@[k as int], n@));
                            assert(f.slice->Some_0.items@[k as int] == items@[k as int]);
                            assert(declares_any(*f, n@));
                            return true;
                        }
                    },
                    None => {},
                }
            },
            _ => {},
        }
        k = k + 1;
    }
    false
}

fn last_index_at(files: &Vec<LoadedFile>, path: &str) -> (r: Option<usize>)
    ensures
        match r {
            Some(k) => last_file_at(files@, path@) == Some(k as int) && k < files@.len(),
            None => last_file_at(files@, path@) is None,
        },
{
    let key = path_key(path);
    let mut i: usize = files.len();
    assert(files@.subrange(0, i as int) =~= files@);
    while i > 0
        invariant
            i <= files@.len(),
            key@ == spec_path_key(path@),
            last_file_at(files@, path@) == last_file_at(files@.subrange(0, i as int), path@),
        decreases i,
    {
        let ghost pre = files@.subrange(0, i as int);
        assert(pre.drop_last() =~= files@.subrange(0, i as int - 1));
        let k = path_key(files[i - 1].path.as_str());
        if str_eq(k.as_str(), key.as_str()) {
            return Some(i - 1);
        }
        i = i - 1;
    }
    None
}

/// The composition warnings for the file `lf` of the set.
pub(crate) fn file_warnings(files: &Vec<LoadedFile>, lf: &LoadedFile) -> (r: Vec<Diagnostic>)
    ensures
        dvs(r@) == file_composition(files@, *lf),
{
    let mut out: Vec<Diagnostic> = Vec::new();
    let slice = match &lf.file.slice {
        Some(s) => s,
        None => {
            assert(dvs(out@) =~= file_composition(files@, *lf));
            return out;
        },
    };
    let qrefs = collect_qrefs(&lf.file);
    let ghost qs = qref_views(qrefs@);
    let imports = &slice.imports;

    // W0273: unused imports.
    let mut i: usize = 0;
    assert(dvs(out@) =~= unused_imports(imports@, qs, 0));
    while i < imports.len()
        invariant
            i <= imports@.len(),
            qs == qref_views(qrefs@),
            dvs(out@) == unused_imports(imports@, qs, i as int),
        decreases imports@.len() - i,
    {
        let alias = imports[i].alias.name.as_str();
        let mut used = false;
        let mut k: usize = 0;
        while k < qrefs.len()
            invariant
                k <= qrefs@.len(),
                qs == qref_views(qrefs@),
                used == exists|j: int| 0 <= j < k && (#[trigger] qs[j]).0.name@ == alias@,
            decreases qrefs@.len() - k,
        {
            proof {
                assert(qs[k as int].0 == *qrefs@[k as int].0);
            }
            if str_eq(qrefs[k].0.name.as_str(), alias) {
                used = true;
            }
            k = k + 1;
        }
        let ghost o = out@;
        if !used {
            let mut msg = cat3("import `", alias, "` is declared but no `");
            msg.append(alias);
            msg.append(".<id>` qualified reference uses it");
            let hint = owned("either reference an id from this import via `<alias>.<id>`, or remove the `use` declaration");
            out.push(Diagnostic::warning(codes::W_COMP_UNUSED_IMPORT, imports[i].span, msg).with_hint(hint));
        }
        assert(dvs(out@) =~= unused_imports(imports@, qs, i as int + 1));
        i = i + 1;
    }
    let ghost part1 = out@;

    // W0274: two imports resolving to the same file.
    let mut i: usize = 0;
    assert(dvs(out@) =~= dvs(part1) + duplicate_targets(imports@, lf.imports_resolved@, 0));
    while i < imports.len()
        invariant
            i <= imports@.len(),
            dvs(out@) == dvs(part1) + duplicate_targets(imports@, lf.imports_resolved@, i as int),
        decreases imports@.len() - i,
    {
        let alias = imports[i].alias.name.as_str();
        let ghost o = out@;
        match resolved_get(&lf.imports_resolved, alias) {
            Some(target) => {
                let tkey = path_key(target.as_str());
                let mut prior: Option<&str> = None;
                let mut j: usize = 0;
                while j < i
                    invariant
                        j <= i,
                        i < imports@.len(),
                        tkey@ == spec_path_key(target@),
                        match prior {
                            Some(p) => prior_alias(imports@, lf.imports_resolved@, target@, 0, i as int) == Some(p@),
                            None => prior_alias(imports@, lf.imports_resolved@, target@, 0, i as int)
                                == prior_alias(imports@, lf.imports_resolved@, target@, j as int, i as int),
                        },
                    decreases i - j,
                {
                    if prior.is_none() {
                        match resolved_get(&lf.imports_resolved, imports[j].alias.name.as_str()) {
                            Some(tj) => {
                                let kj = path_key(tj.as_str());
                                if str_eq(kj.as_str(), tkey.as_str()) {
                                    prior = Some(imports[j].alias.name.as_str());
                                }
                            },
                            None => {},
                        }
                    }
                    j = j + 1;
                }
                assert(prior_alias(imports@, lf.imports_resolved@, target@, i as int, i as int) is None);
                match prior {
                    Some(p) => {
                        assert(duplicate_targets(imports@, lf.imports_resolved@, i as int + 1) == duplicate_targets(
                            imports@,
                            lf.imports_resolved@,
                            i as int,
                        ) + seq![duplicate_target_diag(imports@[i as int], p@, target@)]);
                        let mut msg = cat3("imports `", p, "` and `");
                        msg.append(alias);
                        msg.append("` both resolve to `");
                        msg.append(target.as_str());
                        msg.append("` — consider collapsing to one alias");
                        let hint = owned(
                            "multiple aliases for the same canonical file is rarely intentional; rename one or remove the duplicate `use`",
                        );
                        out.push(
                            Diagnostic::warning(codes::W_COMP_DUPLICATE_IMPORT_TARGET, imports[i].span, msg).with_hint(
                                hint,
                            ),
                        );
                        assert(dvs(out@) =~= dvs(o) + seq![duplicate_target_diag(imports@[i as int], p@, target@)]);
                    },
                    None => {
                        assert(duplicate_targets(imports@, lf.imports_resolved@, i as int + 1) =~= duplicate_targets(
                            imports@,
                            lf.imports_resolved@,
                            i as int,
                        ));
                        assert(dvs(out@) =~= dvs(o));
                    },
                }
            },
            None => {
                assert(duplicate_targets(imports@, lf.imports_resolved@, i as int + 1) =~= duplicate_targets(
                    imports@,
                    lf.imports_resolved@,
                    i as int,
                ));
            },
        }
        assert(dvs(out@) =~= dvs(part1) + duplicate_targets(imports@, lf.imports_resolved@, i as int + 1));
        i = i + 1;
    }
    let ghost part2 = out@;

    // W0275: qualified references that shadow a local id.
    let own = last_index_at(files, lf.path.as_str());
    let mut n: usize = 0;
    assert(dvs(out@) =~= dvs(part2) + shadow_diags(files@, *lf, qs, 0));
    while n < qrefs.len()
        invariant
            n <= qrefs@.len(),
            qs == qref_views(qrefs@),
            match own {
                Some(k) => last_file_at(files@, lf.path@) == Some(k as int) && k < files@.len(),
                None => last_file_at(files@, lf.path@) is None,
            },
            dvs(out@) == dvs(part2) + shadow_diags(files@, *lf, qs, n as int),
        decreases qrefs@.len() - n,
    {
        let (alias, name, span) = qrefs[n];
        proof {
            assert(qs[n as int] == (*alias, *name, span));
        }
        let local = match own {
            Some(k) => declares_any_exec(&files[k].file, name.name.as_str()),
            None => false,
        };
        let mut seen = false;
        let mut j: usize = 0;
        while j < n
            invariant
                j <= n,
                n < qrefs@.len(),
                qs == qref_views(qrefs@),
                qs[n as int] == (*alias, *name, span),
                seen == exists|q: int|
                    0 <= q < j && (#[trigger] qs[q]).0.name@ == alias.name@ && qs[q].1.name@ == name.name@,
            decreases n - j,
        {
            proof {
                assert(qs[j as int] == (*qrefs@[j as int].0, *qrefs@[j as int].1, qrefs@[j as int].2));
            }
            if str_eq(qrefs[j].0.name.as_str(), alias.name.as_str()) && str_eq(
                qrefs[j].1.name.as_str(),
                name.name.as_str(),
            ) {
                seen = true;
            }
            j = j + 1;
        }
        let mut shadowed = false;
        if local && !seen {
            match resolved_get(&lf.imports_resolved, alias.name.as_str()) {
                Some(target) => match last_index_at(files, target.as_str()) {
                    Some(t) => {
                        shadowed = declares_any_exec(&files[t].file, name.name.as_str());
                    },
                    None => {},
                },
                None => {},
            }
        }
        assert(seen == pair_seen(qs, n as int));
        assert(local == (last_file_at(files@, lf.path@) matches Some(l) && declares_any(files@[l].file, name.name@)));
        assert(shadowed == (shadows(files@, *lf, qs[n as int]) && !pair_seen(qs, n as int)));
        let ghost o = out@;
        if shadowed {
            let mut msg = cat3("qualified reference `", alias.name.as_str(), ".");
            msg.append(name.name.as_str());
            msg.append("` shadows a local declaration also named `");
            msg.append(name.name.as_str());
            msg.append("` in this slice — readers may confuse the two");
            let hint = owned(
                "rename the local declaration to disambiguate, or use the qualified form everywhere if the local one is intentional",
            );
            out.push(Diagnostic::warning(codes::W_COMP_IMPORTED_ID_SHADOWED, span, msg).with_hint(hint));
            assert(dvs(out@) =~= dvs(o) + seq![shadow_diag(qs[n as int])]);
        } else {
            assert(dvs(out@) =~= dvs(o));
        }
        assert(dvs(out@) =~= dvs(part2) + shadow_diags(files@, *lf, qs, n as int + 1));
        n = n + 1;
    }
    proof {
        assert(qs == file_qrefs(lf.file));
        assert(dvs(out@) =~= file_composition(files@, *lf));
    }
    out
}

/// The composition warnings of the set: for each file with something to
/// report, its warnings, keyed by its path.
pub fn run(ws: &WorkingSet) -> (r: Vec<(String, Vec<Diagnostic>)>)
    ensures
        keys_distinct(r@),
        forall|j: int|
            0 <= j < r@.len() ==> (#[trigger] r@[j]).1@.len() > 0 && exists|i: int|
                0 <= i < ws.files@.len() && spec_path_key(ws.files@[i].path@) == spec_path_key(r@[j].0@) && dvs(
                    r@[j].1@,
                ) == file_composition(ws.files@, ws.files@[i]),
        forall|i: int|
            0 <= i < ws.files@.len() && file_composition(ws.files@, #[trigger] ws.files@[i]).len() > 0 ==> exists|j: int|
                0 <= j < r@.len() && spec_path_key(r@[j].0@) == spec_path_key(ws.files@[i].path@),
{
    let files = &ws.files;
    let mut out: Vec<(String, Vec<Diagnostic>)> = Vec::new();
    let mut i: usize = 0;
    while i < files.len()
        invariant
            i <= files@.len(),
            files@ == ws.files@,
            keys_distinct(out@),
            forall|j: int|
                0 <= j < out@.len() ==> (#[trigger] out@[j]).1@.len() > 0 && exists|q: int|
                    0 <= q < files@.len() && spec_path_key(files@[q].path@) == spec_path_key(out@[j].0@) && dvs(
                        out@[j].1@,
                    ) == file_composition(files@, files@[q]),
            forall|q: int|
                0 <= q < i && file_composition(files@, #[trigger] files@[q]).len() > 0 ==> exists|j: int|
                    0 <= j < out@.len() && spec_path_key(out@[j].0@) == spec_path_key(files@[q].path@),
        decreases files@.len() - i,
    {
        let diagnostics = file_warnings(files, &files[i]);
        if diagnostics.len() > 0 {
            let ghost o = out@;
            let ghost d = diagnostics;
            path_map_insert(&mut out, owned(files[i].path.as_str()), diagnostics);
            proof {
                assert forall|j: int| 0 <= j < out@.len() implies (#[trigger] out@[j]).1@.len() > 0 && exists|q: int|
                    0 <= q < files@.len() && spec_path_key(files@[q].path@) == spec_path_key(out@[j].0@) && dvs(
                        out@[j].1@,
                    ) == file_composition(files@, files@[q]) by {
                    if spec_path_key(out@[j].0@) == spec_path_key(files@[i as int].path@) && out@[j].1 == d {
                    } else {
                        let k = choose|k: int| 0 <= k < o.len() && o[k] == out@[j];
                    }
                }
                assert forall|q: int|
                    0 <= q < i + 1 && file_composition(files@, #[trigger] files@[q]).len() > 0 implies exists|j: int|
                        0 <= j < out@.len() && spec_path_key(out@[j].0@) == spec_path_key(files@[q].path@) by {
                    if q < i {
                        let j0 = choose|j0: int|
                            0 <= j0 < o.len() && spec_path_key(o[j0].0@) == spec_path_key(files@[q].path@);
                        if spec_path_key(o[j0].0@) != spec_path_key(files@[i as int].path@) {
                            assert(spec_path_key((#[trigger] o[j0]).0@) != spec_path_key(files@[i as int].path@));
                        } else {
                            let j1 = choose|j1: int|
                                0 <= j1 < out@.len() && spec_path_key((#[trigger] out@[j1]).0@) == spec_path_key(
                                    files@[i as int].path@,
                                ) && out@[j1].1 == d;
                        }
                    } else {
                        let j1 = choose|j1: int|
                            0 <= j1 < out@.len() && spec_path_key((#[trigger] out@[j1]).0@) == spec_path_key(
                                files@[i as int].path@,
                            ) && out@[j1].1 == d;
                    }
                }
            }
        }
        i = i + 1;
    }
    out
}

} // verus!
