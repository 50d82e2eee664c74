//! Analyzer passes: structural completeness, coherence, symmetric-failure,
//! cross-slice resolution and composition, plus the query, diff, suggest and
//! render surfaces. Every pass works on the AST alone.
//!
//! Single-file analysis runs, in order:
//! 1. structural: required-field presence per slot;
//! 2. coherence: symbol table, reference resolution, derivation
//!    acyclicity, kill-test / forbidden-state consistency, warnings;
//! 3. symmetric-failure: post_failure coverage for events with at least
//!    two fallible steps.

use vstd::prelude::*;

use crate::analysis::coherence::{
    adds_duplicate_id, added, cell_error_in, coherence_diag, declared_as, grew_by_coherence, has_duplicate_slot_id,
    unknown_cell_message, unknown_only,
};
use crate::analysis::structural::structural_spec;
use crate::analysis::symmetric_failure::symmetric_spec;
use crate::analysis::composition::file_composition;
use crate::analysis::cross_slice::{file_resolution, has_ref, is_cross_ref, records_cross_refs};
use crate::analysis::loader::{LoadedFile, WorkingSet, keys_distinct, path_map_find, path_map_insert, spec_path_key};
use crate::ast::File;
use crate::diagnostic::codes;
use crate::diagnostic::{DiagView, Diagnostic, Severity, dv, dvs};
use crate::text::{chars_of, find_in, find_seq, owned, str_eq, string_of, suffix};

pub mod nav;
pub mod structural;
pub mod symmetric_failure;
pub mod coherence;
pub mod index;
pub mod query;
pub mod diff;
pub mod suggest;

verus! {

pub struct AnalysisResult {
    pub diagnostics: Vec<Diagnostic>,
}

/// `ds` is what the three per-file passes report for `file`: the
/// structural diagnostics, then coherence diagnostics (among them a
/// duplicate-id error exactly when two top-level declarations share an id,
/// and as unresolved-cell errors exactly the slice's references to ids not
/// first declared as cells), then the symmetric-failure diagnostics.
#[verifier::opaque]
pub open spec fn analysis_diags(file: File, ds: Seq<DiagView>) -> bool {
    exists|coh: Seq<DiagView>|
        {
            &&& ds == structural_spec(file) + coh + symmetric_spec(file)
            &&& forall|i: int| 0 <= i < coh.len() ==> coherence_diag(#[trigger] coh[i])
            &&& (exists|i: int| 0 <= i < coh.len() && (#[trigger] coh[i]).0 == codes::E_COH_DUPLICATE_ID@) <==> (
            file.slice matches Some(s) && has_duplicate_slot_id(s))
            &&& file.slice matches Some(s) ==> forall|i: int|
                0 <= i < coh.len() && (#[trigger] coh[i]).0 == codes::E_COH_UNRESOLVED_CELL_REF@ ==> exists|id: Seq<char>|
                    coh[i].2 == #[trigger] unknown_cell_message(id) && !declared_as(s.items@, id, "cell"@)
            &&& file.slice matches Some(s) ==> forall|x: DiagView|
                #[trigger] unknown_only(coh).contains(x) <==> cell_error_in(s.items@, x)
        }
}

proof fn lemma_coherence_tail(a: Seq<Diagnostic>, b: Seq<Diagnostic>)
    requires
        grew_by_coherence(a, b),
    ensures
        dvs(b) == dvs(a) + dvs(b.subrange(a.len() as int, b.len() as int)),
        forall|i: int|
            0 <= i < b.len() - a.len() ==> coherence_diag(#[trigger] dvs(b.subrange(a.len() as int, b.len() as int))[i]),
{
    let t = b.subrange(a.len() as int, b.len() as int);
    assert(b =~= a + t);
    assert(dvs(b) =~= dvs(a) + dvs(t));
    assert forall|i: int| 0 <= i < b.len() - a.len() implies coherence_diag(#[trigger] dvs(t)[i]) by {
        assert(t[i] == b[a.len() + i]);
    }
}

/// Single-file analysis: structural, then coherence, then
/// symmetric-failure, on one file's AST. Qualified refs (`alias.id`) are
/// not resolved here; [`analyze_working_set`] does that.
pub fn analyze(file: &File) -> (r: AnalysisResult)
    ensures
        analysis_diags(*file, dvs(r.diagnostics@)),
{
    let mut diagnostics: Vec<Diagnostic> = Vec::new();
    structural::run(file, &mut diagnostics);
    let ghost a = diagnostics@;
    coherence::run(file, &mut diagnostics);
    let ghost b = diagnostics@;
    symmetric_failure::run(file, &mut diagnostics);
    proof {
        reveal(analysis_diags);
        lemma_coherence_tail(a, b);
        let t = b.subrange(a.len() as int, b.len() as int);
        let coh = dvs(t);
        assert(coh == added(a, b));
        if adds_duplicate_id(a, b) {
            let i = choose|i: int| a.len() <= i < b.len() && (#[trigger] b[i]).code@ == codes::E_COH_DUPLICATE_ID@;
            assert(coh[i - a.len()] == dv(b[i]));
        }
        if exists|i: int| 0 <= i < coh.len() && (#[trigger] coh[i]).0 == codes::E_COH_DUPLICATE_ID@ {
            let i = choose|i: int| 0 <= i < coh.len() && (#[trigger] coh[i]).0 == codes::E_COH_DUPLICATE_ID@;
            assert(b[a.len() + i] == t[i]);
            assert(adds_duplicate_id(a, b));
        }
        assert forall|i: int| 0 <= i < coh.len() && (#[trigger] coh[i]).0 == codes::E_COH_UNRESOLVED_CELL_REF@ implies
            (file.slice matches Some(s) ==> exists|id: Seq<char>|
                coh[i].2 == #[trigger] unknown_cell_message(id) && !declared_as(s.items@, id, "cell"@)) by {
            assert(b[a.len() + i] == t[i]);
            assert(coh[i] == dv(b[a.len() + i]));
        }
        assert(dvs(a) =~= structural_spec(*file));
        assert(dvs(diagnostics@) == structural_spec(*file) + coh + symmetric_spec(*file));
    }
    AnalysisResult { diagnostics }
}

// ---------------------------------------------------------------------------
// Working sets
// ---------------------------------------------------------------------------

/// Analysis of a working set: each file's diagnostics, keyed by its path,
/// in path order.
pub struct WorkingSetAnalysis {
    pub by_file: Vec<(String, Vec<Diagnostic>)>,
}

/// The text between the first two backticks of a message (to its end when
/// there is one backtick, empty when there is none).
pub open spec fn tick_field(m: Seq<char>) -> Seq<char> {
    match find_in(m, seq!['`']) {
        None => seq![],
        Some(s) => {
            let rest = m.subrange(s + 1, m.len() as int);
            match find_in(rest, seq!['`']) {
                None => rest,
                Some(e) => rest.subrange(0, e),
            }
        },
    }
}

/// An unused-cell warning about a cell that another file of the set
/// reaches through a qualified reference.
pub open spec fn consumed_elsewhere(files: Seq<LoadedFile>, key: Seq<char>, d: DiagView) -> bool {
    d.0 == codes::W_COH_UNUSED_CELL@ && is_cross_ref(files, key, tick_field(d.2))
}

/// `ds` without the unused-cell warnings about cells consumed elsewhere.
pub open spec fn without_consumed(files: Seq<LoadedFile>, key: Seq<char>, ds: Seq<DiagView>) -> Seq<DiagView>
    decreases ds.len(),
{
    if ds.len() == 0 {
        seq![]
    } else {
        without_consumed(files, key, ds.drop_last()) + if consumed_elsewhere(files, key, ds.last()) {
            seq![]
        } else {
            seq![ds.last()]
        }
    }
}

/// What the working-set analysis reports for the file `lf` of the set,
/// given `passes`, what the per-file passes reported for it: the loader's
/// diagnostics, those of the passes, cross-slice resolution and
/// composition, less the unused-cell warnings about cells other files
/// consume.
pub open spec fn ws_file_diags(files: Seq<LoadedFile>, lf: LoadedFile, passes: Seq<DiagView>) -> Seq<DiagView> {
    without_consumed(
        files,
        spec_path_key(lf.path@),
        dvs(lf.diagnostics@) + passes + file_resolution(files, lf) + file_composition(files, lf),
    )
}

/// `m` has an entry for the file `path` names.
pub open spec fn has_entry(m: Seq<(String, Vec<Diagnostic>)>, path: Seq<char>) -> bool {
    exists|j: int| 0 <= j < m.len() && spec_path_key((#[trigger] m[j]).0@) == spec_path_key(path)
}

/// The entry `e` holds what the analysis reports for some file of the set
/// with its path.
pub open spec fn entry_ok(files: Seq<LoadedFile>, e: (String, Vec<Diagnostic>)) -> bool {
    exists|i: int, ds: Seq<DiagView>|
        0 <= i < files.len() && spec_path_key(files[i].path@) == spec_path_key(e.0@) && analysis_diags(
            files[i].file,
            ds,
        ) && dvs(e.1@) == #[trigger] ws_file_diags(files, files[i], ds)
}

fn copy_diag(d: &Diagnostic) -> (r: Diagnostic)
    ensures
        r == *d,
{
    Diagnostic {
        code: d.code,
        severity: d.severity,
        message: d.message.clone(),
        span: d.span,
        hint: match &d.hint {
            Some(h) => Some(h.clone()),
            None => None,
        },
    }
}

fn tick_field_text(m: &str) -> (r: String)
    ensures
        r@ == tick_field(m@),
{
    let cs = chars_of(m);
    let bt: Vec<char> = vec!['`'];
    assert(bt@ =~= seq!['`']);
    match find_seq(&cs, &bt) {
        None => String::new(),
        Some(s) => {
            proof {
                crate::text::lemma_find_in_bounds(cs@, bt@);
            }
            let rest = suffix(&cs, s + 1);
            match find_seq(&rest, &bt) {
                None => string_of(&rest, 0, rest.len()),
                Some(e) => {
                    proof {
                        crate::text::lemma_find_in_bounds(rest@, bt@);
                    }
                    string_of(&rest, 0, e)
                },
            }
        },
    }
}

fn contains_name(v: &Vec<String>, s: &str) -> (r: bool)
    ensures
        r == exists|k: int| 0 <= k < v@.len() && (#[trigger] v@[k])@ == s@,
{
    let mut i: usize = 0;
    while i < v.len()
        invariant
            i <= v@.len(),
            forall|k: int| 0 <= k < i ==> (#[trigger] v@[k])@ != s@,
        decreases v@.len() - i,
    {
        if str_eq(v[i].as_str(), s) {
            return true;
        }
        i = i + 1;
    }
    false
}

/// Drop the unused-cell warnings about cells other files consume.
fn drop_consumed(
    ds: Vec<Diagnostic>,
    names: &Vec<String>,
    Ghost(files): Ghost<Seq<LoadedFile>>,
    Ghost(key): Ghost<Seq<char>>,
) -> (r: Vec<Diagnostic>)
    requires
        forall|n: Seq<char>|
            #![trigger is_cross_ref(files, key, n)]
            is_cross_ref(files, key, n) <==> exists|k: int| 0 <= k < names@.len() && (#[trigger] names@[k])@ == n,
    ensures
        dvs(r@) == without_consumed(files, key, dvs(ds@)),
{
    let mut out: Vec<Diagnostic> = Vec::new();
    let mut i: usize = 0;
    while i < ds.len()
        invariant
            i <= ds@.len(),
            forall|n: Seq<char>|
                #![trigger is_cross_ref(files, key, n)]
                is_cross_ref(files, key, n) <==> exists|k: int| 0 <= k < names@.len() && (#[trigger] names@[k])@ == n,
            dvs(out@) == without_consumed(files, key, dvs(ds@).subrange(0, i as int)),
        decreases ds@.len() - i,
    {
        proof {
            assert(dvs(ds@).subrange(0, i as int + 1).drop_last() =~= dvs(ds@).subrange(0, i as int));
        }
        let d = &ds[i];
        let mut drop = false;
        if str_eq(d.code, codes::W_COH_UNUSED_CELL) {
            let id = tick_field_text(d.message.as_str());
            drop = contains_name(names, id.as_str());
        }
        let ghost o = out@;
        if !drop {
            out.push(copy_diag(d));
        }
        proof {
            assert(dvs(ds@)[i as int] == dv(ds@[i as int]));
            assert(drop == consumed_elsewhere(files, key, dv(ds@[i as int])));
        }
        assert(dvs(out@) =~= without_consumed(files, key, dvs(ds@).subrange(0, i as int + 1)));
        i = i + 1;
    }
    assert(dvs(ds@).subrange(0, ds@.len() as int) =~= dvs(ds@));
    out
}

/// The names recorded for the file whose path is `path`.
fn consumed_names<'a>(m: &'a Vec<(String, Vec<String>)>, path: &str, Ghost(files): Ghost<Seq<LoadedFile>>) -> (r: Vec<String>)
    requires
        records_cross_refs(files, m@),
        forall|key: Seq<char>, n: Seq<char>| #[trigger] is_cross_ref(files, key, n) ==> has_ref(m@, key, n),
    ensures
        forall|n: Seq<char>|
            #![trigger is_cross_ref(files, spec_path_key(path@), n)]
            is_cross_ref(files, spec_path_key(path@), n) <==> exists|k: int| 0 <= k < r@.len() && (#[trigger] r@[k])@ == n,
{
    match path_map_find(m, path) {
        Some(i) => {
            let mut r: Vec<String> = Vec::new();
            let mut k: usize = 0;
            while k < m[i].1.len()
                invariant
                    i < m@.len(),
                    k <= m@[i as int].1@.len(),
                    r@.len() == k,
                    forall|q: int| 0 <= q < k ==> (#[trigger] r@[q])@ == m@[i as int].1@[q]@,
                decreases m@[i as int].1@.len() - k,
            {
                r.push(owned(m[i].1[k].as_str()));
                k = k + 1;
            }
            proof {
                assert forall|n: Seq<char>|
                    #![trigger is_cross_ref(files, spec_path_key(path@), n)]
                    is_cross_ref(files, spec_path_key(path@), n) <==> exists|k: int|
                        0 <= k < r@.len() && (#[trigger] r@[k])@ == n by {
                    if is_cross_ref(files, spec_path_key(path@), n) {
                        assert(has_ref(m@, spec_path_key(path@), n));
                        let (e, q) = choose|e: int, q: int|
                            0 <= e < m@.len() && 0 <= q < m@[e].1@.len() && spec_path_key(m@[e].0@) == spec_path_key(
                                path@,
                            ) && (#[trigger] m@[e].1@[q])@ == n;
                        if e != i {
                            if e < i {
                                assert(spec_path_key((#[trigger] m@[e]).0@) != spec_path_key(m@[i as int].0@));
                            } else {
                                assert(spec_path_key((#[trigger] m@[i as int]).0@) != spec_path_key(m@[e].0@));
                            }
                        }
                        assert(r@[q]@ == n);
                    }
                    if exists|k: int| 0 <= k < r@.len() && (#[trigger] r@[k])@ == n {
                        let k = choose|k: int| 0 <= k < r@.len() && (#[trigger] r@[k])@ == n;
                        assert(m@[i as int].1@[k]@ == n);
                    }
                }
            }
            r
        },
        None => {
            let r: Vec<String> = Vec::new();
            proof {
                assert forall|n: Seq<char>|
                    #![trigger is_cross_ref(files, spec_path_key(path@), n)]
                    is_cross_ref(files, spec_path_key(path@), n) <==> exists|k: int|
                        0 <= k < r@.len() && (#[trigger] r@[k])@ == n by {
                    if is_cross_ref(files, spec_path_key(path@), n) {
                        assert(has_ref(m@, spec_path_key(path@), n));
                        let (e, q) = choose|e: int, q: int|
                            0 <= e < m@.len() && 0 <= q < m@[e].1@.len() && spec_path_key(m@[e].0@) == spec_path_key(
                                path@,
                            ) && (#[trigger] m@[e].1@[q])@ == n;
                        assert(spec_path_key((#[trigger] m@[e]).0@) != spec_path_key(path@));
                    }
                }
            }
            r
        },
    }
}

/// Multi-file analysis: the per-file passes on every file of the set, then
/// cross-slice resolution and composition; each file's loader diagnostics
/// come first. Unused-cell warnings about cells that another file
/// consumes through a qualified reference are dropped.
#[verifier::rlimit(40)]
pub fn analyze_working_set(ws: &WorkingSet) -> (r: WorkingSetAnalysis)
    ensures
        keys_distinct(r.by_file@),
        forall|i: int| 0 <= i < ws.files@.len() ==> has_entry(r.by_file@, (#[trigger] ws.files@[i]).path@),
        forall|j: int| 0 <= j < r.by_file@.len() ==> entry_ok(ws.files@, #[trigger] r.by_file@[j]),
{
    let files = &ws.files;
    let cross = crate::analysis::cross_slice::cross_referenced_ids(ws);
    proof {
        assert forall|key: Seq<char>, n: Seq<char>| #[trigger] is_cross_ref(files@, key, n) implies has_ref(cross@, key, n) by {
            let (i, j) = choose|i: int, j: int|
                0 <= i < files@.len() && 0 <= j < crate::analysis::cross_slice::file_qrefs(files@[i].file).len() && (
                crate::analysis::loader::alias_target(
                    files@[i].imports_resolved@,
                    (#[trigger] crate::analysis::cross_slice::file_qrefs(files@[i].file)[j]).0.name@,
                ) matches Some(p) && spec_path_key(p) == key) && crate::analysis::cross_slice::file_qrefs(
                    files@[i].file,
                )[j].1.name@ == n;
        }
    }
    let mut by_file: Vec<(String, Vec<Diagnostic>)> = Vec::new();
    let mut i: usize = 0;
    while i < files.len()
        invariant
            i <= files@.len(),
            files@ == ws.files@,
            records_cross_refs(files@, cross@),
            forall|key: Seq<char>, n: Seq<char>| #[trigger] is_cross_ref(files@, key, n) ==> has_ref(cross@, key, n),
            keys_distinct(by_file@),
            forall|q: int| 0 <= q < i ==> has_entry(by_file@, (#[trigger] files@[q]).path@),
            forall|j: int| 0 <= j < by_file@.len() ==> entry_ok(files@, #[trigger] by_file@[j]),
        decreases files@.len() - i,
    {
        let lf = &files[i];
        let mut diagnostics: Vec<Diagnostic> = Vec::new();
        let mut k: usize = 0;
        while k < lf.diagnostics.len()
            invariant
                k <= lf.diagnostics@.len(),
                diagnostics@ == lf.diagnostics@.subrange(0, k as int),
            decreases lf.diagnostics@.len() - k,
        {
            diagnostics.push(copy_diag(&lf.diagnostics[k]));
            assert(diagnostics@ =~= lf.diagnostics@.subrange(0, k as int + 1));
            k = k + 1;
        }
        assert(diagnostics@ =~= lf.diagnostics@);
        let analysis = analyze(&lf.file);
        let ghost passes = dvs(analysis.diagnostics@);
        let mut passes_diags = analysis.diagnostics;
        diagnostics.append(&mut passes_diags);
        let mut resolution = crate::analysis::cross_slice::resolve_file(files, lf);
        diagnostics.append(&mut resolution);
        let mut composition = crate::analysis::composition::file_warnings(files, lf);
        diagnostics.append(&mut composition);
        proof {
            crate::diagnostic::lemma_dvs_concat(lf.diagnostics@, analysis.diagnostics@);
        }
        assert(dvs(diagnostics@) =~= dvs(lf.diagnostics@) + passes + file_resolution(files@, *lf) + file_composition(
            files@,
            *lf,
        )) by {
            let a = lf.diagnostics@;
            let b = analysis.diagnostics@;
            let all = diagnostics@;
            assert(dvs(all) =~= dvs(a) + dvs(b) + dvs(all.subrange((a.len() + b.len()) as int, all.len() as int)));
        }
        let names = consumed_names(&cross, lf.path.as_str(), Ghost(files@));
        let kept = drop_consumed(diagnostics, &names, Ghost(files@), Ghost(spec_path_key(lf.path@)));
        let ghost o = by_file@;
        let ghost kv = kept;
        path_map_insert(&mut by_file, owned(lf.path.as_str()), kept);
        proof {
            assert forall|j: int| 0 <= j < by_file@.len() implies entry_ok(files@, #[trigger] by_file@[j]) by {
                if spec_path_key(by_file@[j].0@) == spec_path_key(lf.path@) && by_file@[j].1 == kv {
                    assert(*lf == files@[i as int]);
                    assert(analysis_diags(files@[i as int].file, passes));
                    assert(dvs(by_file@[j].1@) == ws_file_diags(files@, files@[i as int], passes));
                    assert(0 <= i < files@.len() && spec_path_key(files@[i as int].path@) == spec_path_key(by_file@[j].0@)
                        && analysis_diags(files@[i as int].file, passes) && dvs(by_file@[j].1@) == ws_file_diags(
                        files@,
                        files@[i as int],
                        passes,
                    ));
                } else {
                    let k = choose|k: int| 0 <= k < o.len() && o[k] == by_file@[j];
                    assert(o[k] == by_file@[j]);
                }
            }
            assert forall|q: int| 0 <= q < i + 1 implies has_entry(by_file@, (#[trigger] files@[q]).path@) by {
                if q < i {
                    let j0 = choose|j0: int|
                        0 <= j0 < o.len() && spec_path_key(o[j0].0@) == spec_path_key(files@[q].path@);
                    if spec_path_key(o[j0].0@) != spec_path_key(lf.path@) {
                        assert(spec_path_key((#[trigger] o[j0]).0@) != spec_path_key(lf.path@));
                    } else {
                        let j1 = choose|j1: int|
                            0 <= j1 < by_file@.len() && spec_path_key((#[trigger] by_file@[j1]).0@) == spec_path_key(
                                lf.path@,
                            ) && by_file@[j1].1 == kv;
                    }
                } else {
                    let j1 = choose|j1: int|
                        0 <= j1 < by_file@.len() && spec_path_key((#[trigger] by_file@[j1]).0@) == spec_path_key(
                            lf.path@,
                        ) && by_file@[j1].1 == kv;
                }
            }
        }
        i = i + 1;
    }
    assert(files@ == ws.files@);
    let r = WorkingSetAnalysis { by_file };
    assert forall|q: int| 0 <= q < ws.files@.len() implies has_entry(r.by_file@, (#[trigger] ws.files@[q]).path@) by {
        assert(ws.files@[q] == files@[q]);
    }
    r
}

/// Sum of the lengths of the files' diagnostic lists, from index `n` on.
pub open spec fn total_from(m: Seq<(String, Vec<Diagnostic>)>, n: int) -> int
    decreases m.len() - n,
{
    if n < 0 || n >= m.len() {
        0
    } else {
        m[n].1@.len() + total_from(m, n + 1)
    }
}

/// Some diagnostic of the analysis is an error.
pub open spec fn any_error(m: Seq<(String, Vec<Diagnostic>)>) -> bool {
    exists|j: int, k: int| 0 <= j < m.len() && 0 <= k < m[j].1@.len() && (#[trigger] m[j].1@[k]).severity == Severity::Error
}

proof fn lemma_total_nonneg(m: Seq<(String, Vec<Diagnostic>)>, n: int)
    ensures
        total_from(m, n) >= 0,
    decreases m.len() - n,
{
    if 0 <= n < m.len() {
        lemma_total_nonneg(m, n + 1);
    }
}

impl WorkingSetAnalysis {
    /// The number of diagnostics over all files.
    pub fn total_diagnostics(&self) -> (n: usize)
        requires
            total_from(self.by_file@, 0) <= usize::MAX,
        ensures
            n == total_from(self.by_file@, 0),
    {
        let m = &self.by_file;
        let mut total: usize = 0;
        let mut i: usize = m.len();
        while i > 0
            invariant
                i <= m@.len(),
                total_from(m@, 0) <= usize::MAX,
                total == total_from(m@, i as int),
            decreases i,
        {
            proof {
                lemma_total_split(m@, i as int - 1);
            }
            i = i - 1;
            total = total + m[i].1.len();
        }
        total
    }

    /// Some file has an error.
    pub fn has_errors(&self) -> (r: bool)
        ensures
            r == any_error(self.by_file@),
    {
        let m = &self.by_file;
        let mut j: usize = 0;
        while j < m.len()
            invariant
                j <= m@.len(),
                m@ == self.by_file@,
                forall|a: int, k: int|
                    0 <= a < j && 0 <= k < m@[a].1@.len() ==> (#[trigger] m@[a].1@[k]).severity != Severity::Error,
            decreases m@.len() - j,
        {
            let ds = &m[j].1;
            let mut k: usize = 0;
            while k < ds.len()
                invariant
                    k <= ds@.len(),
                    j < m@.len(),
                    m@ == self.by_file@,
                    ds@ == m@[j as int].1@,
                    forall|q: int| 0 <= q < k ==> (#[trigger] ds@[q]).severity != Severity::Error,
                decreases ds@.len() - k,
            {
                if ds[k].severity == Severity::Error {
                    assert(self.by_file@[j as int].1@[k as int].severity == Severity::Error);
                    return true;
                }
                k = k + 1;
            }
            j = j + 1;
        }
        false
    }
}

proof fn lemma_total_split(m: Seq<(String, Vec<Diagnostic>)>, i: int)
    requires
        0 <= i < m.len(),
    ensures
        total_from(m, 0) >= total_from(m, i),
        total_from(m, i) == m[i].1@.len() + total_from(m, i + 1),
    decreases i,
{
    lemma_total_nonneg(m, i + 1);
    if i > 0 {
        lemma_total_split(m, i - 1);
        lemma_total_nonneg(m, i);
        assert(total_from(m, i - 1) == m[i - 1].1@.len() + total_from(m, i));
    }
}

} // verus!
pub mod loader;
pub mod cross_slice;
pub mod composition;
pub mod render_text;
pub mod render;
pub mod render_graph;
pub mod render_aggregate;
pub mod revisions;
