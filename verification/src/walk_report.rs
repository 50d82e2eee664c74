//! What a walk reports besides its diagnostics: declaration counts, the
//! severity tally, the process exit code, and the friendly replacement for
//! the flood of lexer errors a file that is not `.memspec` at all produces.

use vstd::prelude::*;

pub mod report;
pub mod revision_text;

use crate::analysis::nav::kind_is;
use crate::analysis::revisions::steps_in;
use crate::ast::{BlockItem, File};
use crate::diagnostic::{Diagnostic, Severity, hinted};
use crate::span::Span;
use crate::text::{cat, chars_of, is_lit, owned, u64_text};

use vstd::string::StringSliceAdditionalSpecFns;

verus! {

// ---------------------------------------------------------------------------
// Declaration counts
// ---------------------------------------------------------------------------

/// How many declarations of each kind a file's slice holds.
#[derive(Debug, Clone, Default)]
pub struct SliceCounts {
    pub slice_name: Option<String>,
    pub cells: usize,
    pub derived: usize,
    pub associations: usize,
    pub events: usize,
    pub steps: usize,
    pub post_failure: usize,
    pub forbidden_states: usize,
    pub kill_tests: usize,
    pub walks: usize,
}

/// The counts as plain numbers: cells, derived, associations, events,
/// steps, post-failure rows, forbidden states, kill-tests, walks.
pub type CountsView = (nat, nat, nat, nat, nat, nat, nat, nat, nat);

pub open spec fn counts_view(c: SliceCounts) -> CountsView {
    (
        c.cells as nat,
        c.derived as nat,
        c.associations as nat,
        c.events as nat,
        c.steps as nat,
        c.post_failure as nat,
        c.forbidden_states as nat,
        c.kill_tests as nat,
        c.walks as nat,
    )
}

/// What one top-level block adds to the counts.
pub open spec fn count_one(c: CountsView, it: BlockItem) -> CountsView {
    match it {
        BlockItem::Block(b) => {
            let k = b.kind.name@;
            if k == "cell"@ {
                (c.0 + 1, c.1, c.2, c.3, c.4, c.5, c.6, c.7, c.8)
            } else if k == "derived"@ {
                (c.0, c.1 + 1, c.2, c.3, c.4, c.5, c.6, c.7, c.8)
            } else if k == "association"@ {
                (c.0, c.1, c.2 + 1, c.3, c.4, c.5, c.6, c.7, c.8)
            } else if k == "event"@ {
                (c.0, c.1, c.2, c.3 + 1, c.4 + steps_in(b.items@), c.5, c.6, c.7, c.8)
            } else if k == "post_failure"@ {
                (c.0, c.1, c.2, c.3, c.4, c.5 + 1, c.6, c.7, c.8)
            } else if k == "forbidden_state"@ {
                (c.0, c.1, c.2, c.3, c.4, c.5, c.6 + 1, c.7, c.8)
            } else if k == "kill_test"@ {
                (c.0, c.1, c.2, c.3, c.4, c.5, c.6, c.7 + 1, c.8)
            } else if k == "walk"@ {
                (c.0, c.1, c.2, c.3, c.4, c.5, c.6, c.7, c.8 + 1)
            } else {
                c
            }
        },
        _ => c,
    }
}

/// The counts of a slice's items.
pub open spec fn counts_of(items: Seq<BlockItem>) -> CountsView
    decreases items.len(),
{
    if items.len() == 0 {
        (0, 0, 0, 0, 0, 0, 0, 0, 0)
    } else {
        count_one(counts_of(items.drop_last()), items.last())
    }
}

pub open spec fn count_sum(c: CountsView) -> nat {
    c.0 + c.1 + c.2 + c.3 + c.4 + c.5 + c.6 + c.7 + c.8
}

/// A count bound for the items: one per item and one per step.
pub open spec fn item_weight(items: Seq<BlockItem>) -> nat
    decreases items.len(),
{
    if items.len() == 0 {
        0
    } else {
        item_weight(items.drop_last()) + 1 + match items.last() {
            BlockItem::Block(b) => steps_in(b.items@),
            _ => 0,
        }
    }
}

proof fn lemma_count_sum(items: Seq<BlockItem>)
    ensures
        count_sum(counts_of(items)) <= item_weight(items),
    decreases items.len(),
{
    if items.len() > 0 {
        lemma_count_sum(items.drop_last());
    }
}

/// `c` holds the counts of `file`: nothing (and no name) without a slice;
/// the slice's name and the counts of its items otherwise, as long as they
/// can be counted in a `usize`.
pub open spec fn counts_of_file(c: SliceCounts, file: File) -> bool {
    match file.slice {
        None => c.slice_name is None && counts_view(c) == (0nat, 0nat, 0nat, 0nat, 0nat, 0nat, 0nat, 0nat, 0nat),
        Some(s) => (c.slice_name matches Some(n) && n@ == s.name.name@) && (item_weight(s.items@) <= usize::MAX
            ==> counts_view(c) == counts_of(s.items@)),
    }
}

impl SliceCounts {
    /// The counts of a file: nothing (and no name) without a slice.
    pub fn from_file(file: &File) -> (c: SliceCounts)
        ensures
            counts_of_file(c, *file),
    {
        let mut c = SliceCounts {
            slice_name: None,
            cells: 0,
            derived: 0,
            associations: 0,
            events: 0,
            steps: 0,
            post_failure: 0,
            forbidden_states: 0,
            kill_tests: 0,
            walks: 0,
        };
        let slice = match &file.slice {
            Some(s) => s,
            None => return c,
        };
        c.slice_name = Some(owned(slice.name.name.as_str()));
        let items = &slice.items;
        let mut i: usize = 0;
        while i < items.len()
            invariant
                i <= items@.len(),
                c.slice_name matches Some(n) && n@ == slice.name.name@,
                item_weight(items@) <= usize::MAX ==> counts_view(c) == counts_of(items@.subrange(0, i as int)),
                count_sum(counts_view(c)) <= item_weight(items@.subrange(0, i as int)) || item_weight(items@) > usize::MAX,
            decreases items@.len() - i,
        {
            let ghost pre = items@.subrange(0, i as int);
            assert(items@.subrange(0, i as int + 1).drop_last() =~= pre);
            proof {
                lemma_weight_prefix(items@, i as int + 1);
                lemma_count_sum(items@.subrange(0, i as int + 1));
            }
            if item_fits(items, i, &c) {
                match &items[i] {
                    BlockItem::Block(b) => {
                        if kind_is(b, "cell") {
                            c.cells = c.cells + 1;
                        } else if kind_is(b, "derived") {
                            c.derived = c.derived + 1;
                        } else if kind_is(b, "association") {
                            c.associations = c.associations + 1;
                        } else if kind_is(b, "event") {
                            c.events = c.events + 1;
                            let n = step_count(b);
                            c.steps = c.steps + n;
                        } else if kind_is(b, "post_failure") {
                            c.post_failure = c.post_failure + 1;
                        } else if kind_is(b, "forbidden_state") {
                            c.forbidden_states = c.forbidden_states + 1;
                        } else if kind_is(b, "kill_test") {
                            c.kill_tests = c.kill_tests + 1;
                        } else if kind_is(b, "walk") {
                            c.walks = c.walks + 1;
                        }
                    },
                    _ => {},
                }
            }
            i = i + 1;
        }
        assert(items@.subrange(0, items@.len() as int) =~= items@);
        c
    }
}

proof fn lemma_weight_prefix(items: Seq<BlockItem>, j: int)
    requires
        0 <= j <= items.len(),
    ensures
        item_weight(items.subrange(0, j)) <= item_weight(items),
    decreases items.len(),
{
    if j < items.len() {
        assert(items.drop_last().subrange(0, j) =~= items.subrange(0, j));
        lemma_weight_prefix(items.drop_last(), j);
    } else {
        assert(items.subrange(0, j) =~= items);
    }
}

/// Counting item `i` cannot overflow.
fn item_fits(items: &Vec<BlockItem>, i: usize, c: &SliceCounts) -> (r: bool)
    requires
        i < items@.len(),
    ensures
        r ==> count_sum(counts_view(*c)) + 1 + match items@[i as int] {
            BlockItem::Block(b) => steps_in(b.items@),
            _ => 0,
        } <= usize::MAX,
        count_sum(counts_view(*c)) <= item_weight(items@.subrange(0, i as int)) && item_weight(items@.subrange(
            0,
            i as int + 1,
        )) <= usize::MAX ==> r,
{
    let total: u128 = c.cells as u128 + c.derived as u128 + c.associations as u128 + c.events as u128 + c.steps as u128
        + c.post_failure as u128 + c.forbidden_states as u128 + c.kill_tests as u128 + c.walks as u128;
    let steps: usize = match &items[i] {
        BlockItem::Block(b) => step_count(b),
        _ => 0,
    };
    assert(items@.subrange(0, i as int + 1).drop_last() =~= items@.subrange(0, i as int));
    total + 1 + (steps as u128) <= usize::MAX as u128
}

/// Number of `step` blocks directly inside `b`.
fn step_count(b: &crate::ast::BlockDecl) -> (n: usize)
    ensures
        n == steps_in(b.items@),
{
    let mut n: usize = 0;
    let mut k: usize = 0;
    while k < b.items.len()
        invariant
            k <= b.items@.len(),
            n == steps_in(b.items@.subrange(0, k as int)),
            n <= k,
        decreases b.items@.len() - k,
    {
        assert(b.items@.subrange(0, k as int + 1).drop_last() =~= b.items@.subrange(0, k as int));
        match &b.items[k] {
            BlockItem::Block(st) => {
                if kind_is(st, "step") {
                    n = n + 1;
                }
            },
            _ => {},
        }
        k = k + 1;
    }
    assert(b.items@.subrange(0, b.items@.len() as int) =~= b.items@);
    n
}

// ---------------------------------------------------------------------------
// Severity tally and exit code
// ---------------------------------------------------------------------------

/// Number of diagnostics of severity `s`.
pub open spec fn severity_count(ds: Seq<Diagnostic>, s: Severity) -> nat
    decreases ds.len(),
{
    if ds.len() == 0 {
        0
    } else {
        severity_count(ds.drop_last(), s) + if ds.last().severity == s {
            1nat
        } else {
            0nat
        }
    }
}

proof fn lemma_severity_count_bound(ds: Seq<Diagnostic>, s: Severity)
    ensures
        severity_count(ds, s) <= ds.len(),
    decreases ds.len(),
{
    if ds.len() > 0 {
        lemma_severity_count_bound(ds.drop_last(), s);
    }
}

/// Errors, warnings and infos among `ds`.
pub fn severity_counts(ds: &Vec<Diagnostic>) -> (r: (usize, usize, usize))
    ensures
        r.0 == severity_count(ds@, Severity::Error),
        r.1 == severity_count(ds@, Severity::Warning),
        r.2 == severity_count(ds@, Severity::Info),
{
    let mut e: usize = 0;
    let mut w: usize = 0;
    let mut n: usize = 0;
    let mut i: usize = 0;
    while i < ds.len()
        invariant
            i <= ds@.len(),
            e == severity_count(ds@.subrange(0, i as int), Severity::Error),
            w == severity_count(ds@.subrange(0, i as int), Severity::Warning),
            n == severity_count(ds@.subrange(0, i as int), Severity::Info),
        decreases ds@.len() - i,
    {
        assert(ds@.subrange(0, i as int + 1).drop_last() =~= ds@.subrange(0, i as int));
        proof {
            lemma_severity_count_bound(ds@.subrange(0, i as int), Severity::Error);
            lemma_severity_count_bound(ds@.subrange(0, i as int), Severity::Warning);
            lemma_severity_count_bound(ds@.subrange(0, i as int), Severity::Info);
        }
        match ds[i].severity {
            Severity::Error => e = e + 1,
            Severity::Warning => w = w + 1,
            Severity::Info => n = n + 1,
        }
        i = i + 1;
    }
    assert(ds@.subrange(0, ds@.len() as int) =~= ds@);
    (e, w, n)
}

pub open spec fn is_digit(c: char) -> bool {
    '0' <= c && c <= '9'
}

/// The text after `memspec/E`, without one leading `+`.
pub open spec fn code_digits(code: Seq<char>) -> Seq<char> {
    let rest = code.subrange("memspec/E"@.len() as int, code.len() as int);
    if rest.len() > 0 && rest[0] == '+' {
        rest.drop_first()
    } else {
        rest
    }
}

pub open spec fn all_digits(d: Seq<char>) -> bool {
    forall|i: int| 0 <= i < d.len() ==> is_digit(#[trigger] d[i])
}

/// The number of a `memspec/E<digits>` code, if it is one that fits in
/// `u32`.
pub open spec fn error_code_number(code: Seq<char>) -> Option<nat> {
    if starts_text(code, "memspec/E"@) {
        let d = code_digits(code);
        if d.len() > 0 && all_digits(d) && digits_value(d) <= u32::MAX {
            Some(digits_value(d))
        } else {
            None
        }
    } else {
        None
    }
}

/// The value of a string of decimal digits.
pub open spec fn digits_value(d: Seq<char>) -> nat
    decreases d.len(),
{
    if d.len() == 0 {
        0
    } else {
        digits_value(d.drop_last()) * 10 + ((d.last() as int - '0' as int) as nat)
    }
}

#[verifier::loop_isolation(false)]
fn code_number(code: &str) -> (r: Option<u32>)
    ensures
        match r {
            Some(n) => error_code_number(code@) == Some(n as nat),
            None => error_code_number(code@) is None,
        },
{
    let cs = chars_of(code);
    let prefix = chars_of("memspec/E");
    proof {
        reveal_strlit("memspec/E");
    }
    let plen = prefix.len();
    if cs.len() < plen {
        return None;
    }
    let mut k: usize = 0;
    while k < plen
        invariant
            k <= plen == prefix@.len() <= cs@.len(),
            cs@ == code@,
            prefix@ == "memspec/E"@,
            forall|q: int| 0 <= q < k ==> cs@[q] == prefix@[q],
        decreases plen - k,
    {
        if cs[k] != prefix[k] {
            assert(cs@.subrange(0, plen as int)[k as int] != prefix@[k as int]);
            return None;
        }
        k = k + 1;
    }
    assert(cs@.subrange(0, plen as int) =~= prefix@);
    let ghost rest = code@.subrange(plen as int, code@.len() as int);
    let mut i: usize = plen;
    if i < cs.len() && cs[i] == '+' {
        i = i + 1;
    }
    let ghost digits = code@.subrange(i as int, code@.len() as int);
    assert(digits =~= if rest.len() > 0 && rest[0] == '+' {
        rest.drop_first()
    } else {
        rest
    });
    if i >= cs.len() {
        return None;
    }
    let start = i;
    let mut v: u64 = 0;
    while i < cs.len()
        invariant
            start <= i <= cs@.len(),
            cs@ == code@,
            digits == code@.subrange(start as int, code@.len() as int),
            forall|q: int| start <= q < i ==> is_digit(#[trigger] cs@[q]),
            v == digits_value(code@.subrange(start as int, i as int)),
            v <= u32::MAX,
        decreases cs@.len() - i,
    {
        let c = cs[i];
        if !('0' <= c && c <= '9') {
            assert(!is_digit(digits[i - start]));
            assert("memspec/E"@.len() == 9);
            assert(code@.subrange(0, 9) == "memspec/E"@);
            assert(code_digits(code@) == digits);
            assert(!all_digits(digits));
            return None;
        }
        let d = (c as u32 - '0' as u32) as u64;
        assert(code@.subrange(start as int, i as int + 1).drop_last() =~= code@.subrange(start as int, i as int));
        let nv = v * 10 + d;
        if nv > u32::MAX as u64 {
            proof {
                assert(code_digits(code@) == digits);
                if all_digits(digits) {
                    lemma_digits_value_monotone(digits, (i + 1 - start) as int);
                    assert(code@.subrange(start as int, i as int + 1) =~= digits.subrange(0, (i + 1 - start) as int));
                }
            }
            return None;
        }
        v = nv;
        i = i + 1;
    }
    assert(code@.subrange(start as int, i as int) =~= digits);
    assert(code_digits(code@) == digits);
    assert(all_digits(digits));
    Some(v as u32)
}

proof fn lemma_digits_value_monotone(d: Seq<char>, j: int)
    requires
        0 <= j <= d.len(),
        forall|i: int| 0 <= i < d.len() ==> is_digit(#[trigger] d[i]),
    ensures
        digits_value(d.subrange(0, j)) <= digits_value(d),
    decreases d.len(),
{
    if j < d.len() {
        assert(d.drop_last().subrange(0, j) =~= d.subrange(0, j));
        lemma_digits_value_monotone(d.drop_last(), j);
    } else {
        assert(d.subrange(0, j) =~= d);
    }
}

/// An error of the lexer or parser (code below E0200).
pub open spec fn is_parse_class(d: Diagnostic) -> bool {
    d.severity == Severity::Error && (error_code_number(d.code@) matches Some(n) && n < 200)
}

/// Any other error, an unrecognised code included.
pub open spec fn is_semantic_class(d: Diagnostic) -> bool {
    d.severity == Severity::Error && !(error_code_number(d.code@) matches Some(n) && n < 200)
}

/// The walk's exit code: 2 when a lexer or parser error is present, else 3
/// for any other error, else 0.
pub open spec fn spec_exit_code(ds: Seq<Diagnostic>) -> u8 {
    if exists|i: int| 0 <= i < ds.len() && is_parse_class(#[trigger] ds[i]) {
        2
    } else if exists|i: int| 0 <= i < ds.len() && is_semantic_class(#[trigger] ds[i]) {
        3
    } else {
        0
    }
}

pub fn exit_code_for(ds: &Vec<Diagnostic>) -> (r: u8)
    ensures
        r == spec_exit_code(ds@),
{
    let mut parse_class = false;
    let mut semantic = false;
    let mut i: usize = 0;
    while i < ds.len()
        invariant
            i <= ds@.len(),
            parse_class == exists|j: int| 0 <= j < i && is_parse_class(#[trigger] ds@[j]),
            semantic == exists|j: int| 0 <= j < i && is_semantic_class(#[trigger] ds@[j]),
        decreases ds@.len() - i,
    {
        let d = &ds[i];
        if d.severity == Severity::Error {
            match code_number(d.code) {
                Some(n) => {
                    if n < 200 {
                        parse_class = true;
                    } else {
                        semantic = true;
                    }
                },
                None => {
                    semantic = true;
                },
            }
        }
        proof {
            if parse_class {
                assert(exists|j: int| 0 <= j < i + 1 && is_parse_class(#[trigger] ds@[j]));
            }
            if semantic {
                assert(exists|j: int| 0 <= j < i + 1 && is_semantic_class(#[trigger] ds@[j]));
            }
        }
        i = i + 1;
    }
    if parse_class {
        2
    } else if semantic {
        3
    } else {
        0
    }
}

// ---------------------------------------------------------------------------
// Not a .memspec file
// ---------------------------------------------------------------------------

/// Number of diagnostics with code `code`.
pub open spec fn code_count(ds: Seq<Diagnostic>, code: Seq<char>) -> nat
    decreases ds.len(),
{
    if ds.len() == 0 {
        0
    } else {
        code_count(ds.drop_last(), code) + if ds.last().code@ == code {
            1nat
        } else {
            0nat
        }
    }
}

/// `s` contains `p`.
pub open spec fn contains_text(s: Seq<char>, p: Seq<char>) -> bool {
    exists|i: int| 0 <= i && i + p.len() <= s.len() && #[trigger] s.subrange(i, i + p.len()) == p
}

pub open spec fn starts_text(s: Seq<char>, p: Seq<char>) -> bool {
    p.len() <= s.len() && s.subrange(0, p.len() as int) == p
}

/// The source has a `slice` or `use` declaration at the start of a line.
pub open spec fn looks_like_memspec(source: Seq<char>) -> bool {
    contains_text(source, "\nslice "@) || starts_text(source, "slice "@) || contains_text(source, "\nuse \""@)
        || starts_text(source, "use \""@)
}

/// The note on the file's extension.
pub open spec fn extension_note(ext: Seq<char>) -> Seq<char> {
    if ext == "md"@ {
        " (file is `.md` — looks like markdown)"@
    } else if ext == "memspec"@ {
        seq![]
    } else if ext.len() == 0 {
        " (file has no extension)"@
    } else {
        " (file extension is not `.memspec`)"@
    }
}

/// The extension of a path, as `Path::extension` gives it (and `""` when
/// there is none or it is not UTF-8).
pub uninterp spec fn spec_path_extension(path: Seq<char>) -> Seq<char>;

/// The extension of a path (std `Path::extension`, `""` when absent).
/// Contract: the result is [`spec_path_extension`] of the path.
#[verifier::external_body]
pub(crate) fn path_extension(path: &str) -> (r: String)
    ensures
        r@ == spec_path_extension(path@),
{
    std::path::Path::new(path).extension().and_then(|s| s.to_str()).unwrap_or("").to_string()
}

/// The single diagnostic that replaces the lexer's flood when a file is
/// not `.memspec` at all.
pub open spec fn wrong_type_diag(n: nat, byte_len: nat, ext: Seq<char>) -> crate::diagnostic::DiagView {
    hinted(
        "memspec/E0006",
        Severity::Error,
        "this doesn't look like a .memspec file"@ + extension_note(ext) + ": found "@ + crate::text::decimal_text(n)
            + " unexpected-character errors and no `slice` declaration"@,
        Span { start: 0, end: if byte_len < 80 { byte_len as usize } else { 80 } },
        "memspec walk expects a .memspec file (the DSL). See `docs/grammar-v0.md` for the format, or run `memspec render <file.memspec> --format md` to see what one looks like rendered."@,
    )
}

fn count_code(ds: &Vec<Diagnostic>, code: &str) -> (n: usize)
    ensures
        n == code_count(ds@, code@),
{
    let mut n: usize = 0;
    let mut i: usize = 0;
    while i < ds.len()
        invariant
            i <= ds@.len(),
            n == code_count(ds@.subrange(0, i as int), code@),
            n <= i,
        decreases ds@.len() - i,
    {
        assert(ds@.subrange(0, i as int + 1).drop_last() =~= ds@.subrange(0, i as int));
        if crate::text::str_eq(ds[i].code, code) {
            n = n + 1;
        }
        i = i + 1;
    }
    assert(ds@.subrange(0, ds@.len() as int) =~= ds@);
    n
}

fn text_contains(s: &Vec<char>, p: &str) -> (r: bool)
    ensures
        r == contains_text(s@, p@),
{
    let pc = chars_of(p);
    match crate::text::find_seq(s, &pc) {
        Some(i) => {
            proof {
                crate::text::lemma_find_in_bounds(s@, pc@);
            }
            assert(s@.subrange(i as int, i + pc@.len()) == p@);
            true
        },
        None => {
            proof {
                crate::text::lemma_find_in_none(s@, p@);
                assert forall|i: int| 0 <= i && i + p@.len() <= s@.len() implies #[trigger] s@.subrange(i, i + p@.len())
                    != p@ by {
                    assert(!crate::text::occurs_at(s@, p@, i));
                }
            }
            false
        },
    }
}

fn text_starts(s: &Vec<char>, p: &str) -> (r: bool)
    ensures
        r == starts_text(s@, p@),
{
    let pc = chars_of(p);
    if pc.len() > s.len() {
        return false;
    }
    let mut k: usize = 0;
    while k < pc.len()
        invariant
            k <= pc@.len() <= s@.len(),
            pc@ == p@,
            forall|q: int| 0 <= q < k ==> s@[q] == pc@[q],
        decreases pc@.len() - k,
    {
        if s[k] != pc[k] {
            assert(s@.subrange(0, pc@.len() as int)[k as int] != pc@[k as int]);
            return false;
        }
        k = k + 1;
    }
    assert(s@.subrange(0, pc@.len() as int) =~= p@);
    true
}

/// When a file draws at least ten unexpected-character errors and has no
/// `slice` or `use` declaration at the start of a line, the one friendly
/// E0006 diagnostic to show in place of them.
pub fn maybe_wrong_file_type(ds: &Vec<Diagnostic>, source: &str, path: &str) -> (r: Option<Diagnostic>)
    ensures
        match r {
            Some(d) => {
                &&& code_count(ds@, "memspec/E0003"@) >= 10
                &&& !looks_like_memspec(source@)
                &&& crate::diagnostic::dv(d) == wrong_type_diag(
                    code_count(ds@, "memspec/E0003"@),
                    source.spec_bytes().len() as nat,
                    spec_path_extension(path@),
                )
            },
            None => code_count(ds@, "memspec/E0003"@) < 10 || looks_like_memspec(source@),
        },
{
    let n = count_code(ds, "memspec/E0003");
    if n < 10 {
        return None;
    }
    let cs = chars_of(source);
    if text_contains(&cs, "\nslice ") || text_starts(&cs, "slice ") || text_contains(&cs, "\nuse \"") || text_starts(
        &cs,
        "use \"",
    ) {
        return None;
    }
    let ext = path_extension(path);
    let note = if is_lit(&ext, "md") {
        " (file is `.md` — looks like markdown)"
    } else if is_lit(&ext, "memspec") {
        ""
    } else if ext.as_str().is_empty() {
        " (file has no extension)"
    } else {
        " (file extension is not `.memspec`)"
    };
    proof {
        assert(""@ =~= Seq::<char>::empty()) by {
            reveal_strlit("");
        }
    }
    let len = source.as_bytes().len();
    let end = if len < 80 {
        len
    } else {
        80
    };
    let mut m = owned("this doesn't look like a .memspec file");
    m.append(note);
    m.append(": found ");
    let t = u64_text(n as u64);
    m.append(t.as_str());
    m.append(" unexpected-character errors and no `slice` declaration");
    let d = Diagnostic::error("memspec/E0006", Span { start: 0, end }, m).with_hint(
        owned(
            "memspec walk expects a .memspec file (the DSL). See `docs/grammar-v0.md` for the format, or run `memspec render <file.memspec> --format md` to see what one looks like rendered.",
        ),
    );
    Some(d)
}

} // verus!
