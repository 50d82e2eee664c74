//! What the experimental revision commands print, and the checks they run
//! on a file before and after appending a revision.

use vstd::prelude::*;

use crate::analysis::analyze;
use crate::analysis::revisions::{GenesisRevisionReport, RevisionAppendReport};
use crate::analysis::loader::WorkingSet;
use crate::diagnostic::{Diagnostic, Severity, spec_severity_name};
use crate::parser::parse;
use crate::text::{chars_of, decimal_text, occurs_at, push_char, string_of, u64_text};
use crate::walk_report::report::{LocatedDiagnostic, all_located, locate_diagnostics};

use vstd::string::StringSliceAdditionalSpecFns;

verus! {

// ---------------------------------------------------------------------------
// Diagnostics of a revision command
// ---------------------------------------------------------------------------

/// One diagnostic as the revision commands print it: code, line and
/// column, severity and message, and the hint on a line of its own.
pub open spec fn revision_diag_text(l: LocatedDiagnostic) -> Seq<char> {
    "  ["@ + l.code@ + "] "@ + decimal_text(l.line as nat) + ":"@ + decimal_text(l.col as nat) + " "@
        + spec_severity_name(l.severity) + ": "@ + l.message@ + "\n"@ + match l.hint {
        Some(h) => "        hint: "@ + h@ + "\n"@,
        None => seq![],
    }
}

pub open spec fn revision_diags_text(ls: Seq<LocatedDiagnostic>) -> Seq<char>
    decreases ls.len(),
{
    if ls.len() == 0 {
        seq![]
    } else {
        revision_diags_text(ls.drop_last()) + revision_diag_text(ls.last())
    }
}

fn push_revision_diag(l: &LocatedDiagnostic, out: &mut String)
    ensures
        final(out)@ == old(out)@ + revision_diag_text(*l),
{
    let ghost start = out@;
    out.append("  [");
    out.append(l.code);
    out.append("] ");
    let line = u64_text(l.line as u64);
    out.append(line.as_str());
    out.append(":");
    let col = u64_text(l.col as u64);
    out.append(col.as_str());
    out.append(" ");
    out.append(l.severity.as_str());
    out.append(": ");
    out.append(l.message.as_str());
    out.append("\n");
    match &l.hint {
        Some(h) => {
            out.append("        hint: ");
            out.append(h.as_str());
            out.append("\n");
        },
        None => {},
    }
    assert(out@ =~= start + revision_diag_text(*l));
}

/// The diagnostics of `source`, each with its line and column, as the
/// revision commands print them.
pub fn revision_diagnostics_text(ds: &Vec<Diagnostic>, source: &str) -> (r: String)
    requires
        source.spec_bytes().len() < u32::MAX,
    ensures
        exists|ls: Seq<LocatedDiagnostic>| all_located(ls, ds@, source.spec_bytes()) && r@ == revision_diags_text(ls),
{
    let ls = locate_diagnostics(ds, source);
    let mut out = String::new();
    let mut i: usize = 0;
    while i < ls.len()
        invariant
            i <= ls@.len(),
            out@ == revision_diags_text(ls@.subrange(0, i as int)),
        decreases ls@.len() - i,
    {
        assert(ls@.subrange(0, i as int + 1).drop_last() =~= ls@.subrange(0, i as int));
        push_revision_diag(&ls[i], &mut out);
        i = i + 1;
    }
    assert(ls@.subrange(0, ls@.len() as int) =~= ls@);
    out
}

/// Some diagnostic of `ds` is an error.
pub open spec fn any_error_in(ds: Seq<Diagnostic>) -> bool {
    exists|i: int| 0 <= i < ds.len() && (#[trigger] ds[i]).severity == Severity::Error
}

pub fn has_error(ds: &Vec<Diagnostic>) -> (r: bool)
    ensures
        r == any_error_in(ds@),
{
    let mut i: usize = 0;
    while i < ds.len()
        invariant
            i <= ds@.len(),
            forall|k: int| 0 <= k < i ==> (#[trigger] ds@[k]).severity != Severity::Error,
        decreases ds@.len() - i,
    {
        if ds[i].severity == Severity::Error {
            return true;
        }
        i = i + 1;
    }
    false
}

/// Some file of the working set failed to load or parse with an error.
pub open spec fn any_load_error(ws: WorkingSet) -> bool {
    exists|i: int| 0 <= i < ws.files@.len() && any_error_in((#[trigger] ws.files@[i]).diagnostics@)
}

pub fn working_set_has_errors(ws: &WorkingSet) -> (r: bool)
    ensures
        r == any_load_error(*ws),
{
    let mut i: usize = 0;
    while i < ws.files.len()
        invariant
            i <= ws.files@.len(),
            forall|k: int| 0 <= k < i ==> !any_error_in((#[trigger] ws.files@[k]).diagnostics@),
        decreases ws.files@.len() - i,
    {
        if has_error(&ws.files[i].diagnostics) {
            return true;
        }
        i = i + 1;
    }
    false
}

/// The diagnostics a file is checked with after a revision is written to
/// it: its parse diagnostics, the analysis's, then the revision checks'.
pub fn revision_check_diagnostics(source: &str) -> (r: Vec<Diagnostic>)
    ensures
        exists|pds: Seq<Diagnostic>, ads: Seq<Diagnostic>, rds: Seq<Diagnostic>|
            {
                &&& crate::parser::front_diags_ok(pds, source.spec_bytes().len() as int)
                &&& r@ == pds + ads + rds
            },
{
    let pr = parse(source);
    let analysis = analyze(&pr.file);
    let mut all = pr.diagnostics;
    let ghost pds = all@;
    let mut extra = analysis.diagnostics;
    let ghost ads = extra@;
    all.append(&mut extra);
    let ghost before = all@;
    crate::analysis::revisions::run(&pr.file, &mut all);
    let ghost rds = all@.subrange(before.len() as int, all@.len() as int);
    assert(all@ =~= pds + ads + rds);
    all
}

// ---------------------------------------------------------------------------
// Summaries
// ---------------------------------------------------------------------------

/// What `experimental genesis` prints without `--json`.
pub open spec fn genesis_text(path: Seq<char>, r: GenesisRevisionReport) -> Seq<char> {
    "memspec experimental genesis: "@ + path + "\n"@ + "  slice:                "@ + match r.slice {
        Some(s) => s@,
        None => "<none>"@,
    } + "\n"@ + "  revision_number:      "@ + decimal_text(r.revision.revision_number as nat) + "\n"@
        + "  result_hash:          "@ + r.revision.result_hash@ + "\n"@ + "  patch_format_version: "@
        + r.revision.patch_format_version@ + "\n"@ + "  ops:                  "@ + decimal_text(
        r.revision.ops@.len(),
    ) + "\n"@
}

pub fn genesis_summary_text(path: &str, r: &GenesisRevisionReport) -> (t: String)
    ensures
        t@ == genesis_text(path@, *r),
{
    let mut out = String::new();
    out.append("memspec experimental genesis: ");
    out.append(path);
    out.append("\n");
    out.append("  slice:                ");
    match &r.slice {
        Some(s) => out.append(s.as_str()),
        None => out.append("<none>"),
    }
    out.append("\n");
    out.append("  revision_number:      ");
    let n = u64_text(r.revision.revision_number);
    out.append(n.as_str());
    out.append("\n");
    out.append("  result_hash:          ");
    out.append(r.revision.result_hash.as_str());
    out.append("\n");
    out.append("  patch_format_version: ");
    out.append(r.revision.patch_format_version.as_str());
    out.append("\n");
    out.append("  ops:                  ");
    let k = u64_text(r.revision.ops.len() as u64);
    out.append(k.as_str());
    out.append("\n");
    assert(out@ =~= genesis_text(path@, *r));
    out
}

/// The number of the last revision an append report lists, 0 when it
/// lists none.
pub open spec fn last_revision_number(r: RevisionAppendReport) -> u64 {
    if r.revisions@.len() == 0 {
        0
    } else {
        r.revisions@.last().revision_number
    }
}

/// What `experimental synthesize-revision` prints without `--json` once it
/// has appended a revision.
pub open spec fn appended_text(path: Seq<char>, r: RevisionAppendReport) -> Seq<char> {
    "appended revision "@ + decimal_text(last_revision_number(r) as nat) + " to "@ + path + "\n"@
}

pub fn appended_summary_text(path: &str, r: &RevisionAppendReport) -> (t: String)
    ensures
        t@ == appended_text(path@, *r),
{
    let n: u64 = if r.revisions.len() == 0 {
        0
    } else {
        r.revisions[r.revisions.len() - 1].revision_number
    };
    let mut out = String::new();
    out.append("appended revision ");
    let nt = u64_text(n);
    out.append(nt.as_str());
    out.append(" to ");
    out.append(path);
    out.append("\n");
    assert(out@ =~= appended_text(path@, *r));
    out
}

// ---------------------------------------------------------------------------
// Corrupting the last result hash (replay-check exercise)
// ---------------------------------------------------------------------------

/// The last position where `p` occurs in `h` at or before `i`.
pub open spec fn rfind_from(h: Seq<char>, p: Seq<char>, i: int) -> Option<int>
    decreases i + 1,
{
    if i < 0 {
        None
    } else if occurs_at(h, p, i) {
        Some(i)
    } else {
        rfind_from(h, p, i - 1)
    }
}

pub open spec fn rfind_in(h: Seq<char>, p: Seq<char>) -> Option<int> {
    rfind_from(h, p, h.len() - p.len())
}

proof fn lemma_rfind_from_bounds(h: Seq<char>, p: Seq<char>, i: int)
    ensures
        rfind_from(h, p, i) matches Some(k) ==> 0 <= k <= i && occurs_at(h, p, k),
    decreases i + 1,
{
    if i >= 0 && !occurs_at(h, p, i) {
        lemma_rfind_from_bounds(h, p, i - 1);
    }
}

pub open spec fn hash_marker() -> Seq<char> {
    "result_hash: \"sha256:"@
}

/// The source with the first digit of its last `result_hash` flipped: a
/// `0` becomes `1`, anything else `0`; unchanged when there is no such
/// digit.
pub open spec fn spec_corrupt_last_result_hash(s: Seq<char>) -> Seq<char> {
    match rfind_in(s, hash_marker()) {
        Some(k) => {
            let pos = k + hash_marker().len();
            if pos >= s.len() {
                s
            } else {
                s.update(pos, if s[pos] == '0' { '1' } else { '0' })
            }
        },
        None => s,
    }
}

/// The character after the last `result_hash` marker, if any, is ASCII:
/// flipping it replaces exactly one byte.
pub open spec fn hash_digit_is_ascii(s: Seq<char>) -> bool {
    match rfind_in(s, hash_marker()) {
        Some(k) => {
            let pos = k + hash_marker().len();
            pos < s.len() ==> (s[pos] as u32) < 128
        },
        None => true,
    }
}

/// Flips the first digit of the last `result_hash` in `source`, so that
/// the replay check after a write can be seen to fail.
pub fn corrupt_last_result_hash(source: &str) -> (r: String)
    requires
        hash_digit_is_ascii(source@),
    ensures
        r@ == spec_corrupt_last_result_hash(source@),
{
    let cs = chars_of(source);
    let marker = chars_of("result_hash: \"sha256:");
    proof {
        reveal_strlit("result_hash: \"sha256:");
    }
    if cs.len() < marker.len() {
        assert(rfind_in(cs@, hash_marker()) is None);
        return string_of(&cs, 0, cs.len());
    }
    let clen = cs.len();
    let mut i: usize = cs.len() - marker.len();
    let mut found: Option<usize> = None;
    loop
        invariant_except_break
            found is None,
            rfind_in(cs@, hash_marker()) == rfind_from(cs@, hash_marker(), i as int),
        invariant
            i + marker@.len() <= cs@.len(),
            clen == cs@.len(),
            marker@ == hash_marker(),
        ensures
            match found {
                Some(k) => rfind_in(cs@, hash_marker()) == Some(k as int),
                None => rfind_in(cs@, hash_marker()) is None,
            },
        decreases i,
    {
        let mut k: usize = 0;
        let mut matched = true;
        while k < marker.len()
            invariant
                k <= marker@.len(),
                i + marker@.len() <= cs@.len(),
                clen == cs@.len(),
                matched ==> cs@.subrange(i as int, i as int + k) == marker@.subrange(0, k as int),
                !matched ==> !occurs_at(cs@, marker@, i as int),
            decreases marker@.len() - k,
        {
            assert(i + k < cs@.len());
            if matched && cs[i + k] != marker[k] {
                assert(cs@.subrange(i as int, i as int + marker@.len())[k as int] != marker@[k as int]);
                matched = false;
            }
            if matched {
                assert(cs@.subrange(i as int, i as int + k + 1) =~= cs@.subrange(i as int, i as int + k).push(
                    cs@[i + k],
                ));
                assert(marker@.subrange(0, k as int + 1) =~= marker@.subrange(0, k as int).push(marker@[k as int]));
            }
            k = k + 1;
        }
        if matched {
            assert(marker@.subrange(0, marker@.len() as int) =~= marker@);
            found = Some(i);
            break;
        }
        assert(rfind_from(cs@, hash_marker(), i as int) == rfind_from(cs@, hash_marker(), i as int - 1));
        if i == 0 {
            break;
        }
        i = i - 1;
    }
    proof {
        lemma_rfind_from_bounds(cs@, hash_marker(), cs@.len() - hash_marker().len());
    }
    match found {
        Some(k) => {
            let pos = k + marker.len();
            if pos >= cs.len() {
                string_of(&cs, 0, cs.len())
            } else {
                let mut r = string_of(&cs, 0, pos);
                let flipped = if cs[pos] == '0' {
                    '1'
                } else {
                    '0'
                };
                push_char(&mut r, flipped);
                let rest = string_of(&cs, pos + 1, cs.len());
                r.append(rest.as_str());
                assert(r@ =~= cs@.update(pos as int, flipped));
                r
            }
        },
        None => string_of(&cs, 0, cs.len()),
    }
}

} // verus!
