//! Pass 2: coherence (the spec is internally sensible).
//!
//! Builds a per-slice symbol table and checks:
//! - top-level slot IDs are unique within the slice (the first wins);
//! - step IDs are unique within their event;
//! - cell refs in `derives_from` / `over` / `mutates` / `cells` /
//!   `cells_after*` resolve;
//! - `post_failure.event` names an event, `post_failure.step` a fallible
//!   step of it;
//! - `forbidden_state.kill_test` and `kill_test.forbidden` agree;
//! - the `derives_from` graph is acyclic.
//!
//! Warnings: unreferenced cells, events with an empty `mutates: []`, and
//! behavioural kill-tests for structurally unreachable forbidden states.
//!
//! Tables are kept sorted by id, so every check visits declarations in id
//! order.

use vstd::prelude::*;
use vstd::string::StringSliceAdditionalSpecFns;

use crate::analysis::nav::{
    block_name_ident, collect_idents, collect_map_keys, field_ident, field_is_true, field_value, idents_of, kind_is,
    map_keys_of, nested_block, spec_block_name_ident, spec_field_value, spec_nested_block,
};
use crate::ast::{BlockDecl, BlockItem, FieldValue, File, Ident, SliceDecl};
use crate::diagnostic::codes;
use crate::diagnostic::{DiagView, Diagnostic, Severity, dv, dvs, emit};
use crate::span::Span;
use crate::text::{bytes_lt, cat, cat3, cat5, is_lit, owned, str_eq, str_lt};

verus! {

/// The error codes of the coherence checks other than the duplicate-id and
/// unresolved-cell ones.
pub open spec fn is_check_error_code(c: Seq<char>) -> bool {
    ||| c == codes::E_COH_DUPLICATE_STEP_ID@
    ||| c == codes::E_COH_UNRESOLVED_EVENT_REF@
    ||| c == codes::E_COH_UNRESOLVED_STEP_REF@
    ||| c == codes::E_COH_UNRESOLVED_FORBIDDEN_REF@
    ||| c == codes::E_COH_UNRESOLVED_KILL_TEST_REF@
    ||| c == codes::E_COH_BIPARTITE_MISMATCH@
    ||| c == codes::E_COH_DERIVATION_CYCLE@
    ||| c == codes::E_COH_STEP_NOT_FALLIBLE@
}

/// The coherence pass's error codes.
pub open spec fn is_coherence_error_code(c: Seq<char>) -> bool {
    c == codes::E_COH_DUPLICATE_ID@ || c == codes::E_COH_UNRESOLVED_CELL_REF@ || is_check_error_code(c)
}

/// The coherence pass's warning codes.
pub open spec fn is_coherence_warning_code(c: Seq<char>) -> bool {
    ||| c == codes::W_COH_UNUSED_CELL@
    ||| c == codes::W_COH_EVENT_EMPTY_MUTATES@
    ||| c == codes::W_COH_REDUNDANT_KILL_TEST@
}

/// An error with a coherence error code, or a warning with a coherence
/// warning code.
pub open spec fn coherence_diag(d: DiagView) -> bool {
    ||| d.1 == Severity::Error && is_coherence_error_code(d.0)
    ||| d.1 == Severity::Warning && is_coherence_warning_code(d.0)
}

/// A coherence diagnostic other than a duplicate id or an unresolved cell.
pub open spec fn check_diag(d: DiagView) -> bool {
    ||| d.1 == Severity::Error && is_check_error_code(d.0)
    ||| d.1 == Severity::Warning && is_coherence_warning_code(d.0)
}

/// `out` grew from `old` by coherence diagnostics only.
pub open spec fn grew_by_coherence(old: Seq<Diagnostic>, new: Seq<Diagnostic>) -> bool {
    &&& old.len() <= new.len()
    &&& new.subrange(0, old.len() as int) == old
    &&& forall|i: int| old.len() <= i < new.len() ==> coherence_diag(dv(#[trigger] new[i]))
}

/// `out` grew from `old` by coherence diagnostics other than duplicate ids
/// and unresolved cells.
pub open spec fn grew_by_checks(old: Seq<Diagnostic>, new: Seq<Diagnostic>) -> bool {
    &&& old.len() <= new.len()
    &&& new.subrange(0, old.len() as int) == old
    &&& forall|i: int| old.len() <= i < new.len() ==> check_diag(dv(#[trigger] new[i]))
}

/// Some diagnostic added to `old` in `new` reports a duplicate id.
pub open spec fn adds_duplicate_id(old: Seq<Diagnostic>, new: Seq<Diagnostic>) -> bool {
    exists|i: int| old.len() <= i < new.len() && (#[trigger] new[i]).code@ == codes::E_COH_DUPLICATE_ID@
}

/// The message of an unresolved-cell error about `id`.
pub open spec fn unknown_cell_message(id: Seq<char>) -> Seq<char> {
    "reference to unknown cell `"@ + id + "`"@
}

/// `id` is the id of an entry of a declaration table.
spec fn in_decls<'a>(v: Seq<Decl<'a>>, id: Seq<char>) -> bool {
    exists|q: int| 0 <= q < v.len() && (#[trigger] v[q]).id@ == id
}

/// An unresolved-cell error about an id that is not in the cell table.
spec fn reports_unknown_cell<'a>(d: Diagnostic, cells: Seq<Decl<'a>>) -> bool {
    &&& d.code@ == codes::E_COH_UNRESOLVED_CELL_REF@
    &&& d.severity == Severity::Error
    &&& exists|id: Seq<char>| !in_decls(cells, id) && d.message@ == #[trigger] unknown_cell_message(id)
}

/// `out` grew from `old` by coherence diagnostics other than duplicate ids,
/// its unresolved-cell errors naming ids that are not in `cells`.
spec fn grew_by_refs<'a>(old: Seq<Diagnostic>, new: Seq<Diagnostic>, cells: Seq<Decl<'a>>) -> bool {
    &&& old.len() <= new.len()
    &&& new.subrange(0, old.len() as int) == old
    &&& forall|i: int|
        old.len() <= i < new.len() ==> check_diag(dv(#[trigger] new[i])) || reports_unknown_cell(new[i], cells)
}

proof fn lemma_refs_refl<'a>(s: Seq<Diagnostic>, cells: Seq<Decl<'a>>)
    ensures
        grew_by_refs(s, s, cells),
{
    assert(s.subrange(0, s.len() as int) =~= s);
}

proof fn lemma_refs_trans<'a>(a: Seq<Diagnostic>, b: Seq<Diagnostic>, c: Seq<Diagnostic>, cells: Seq<Decl<'a>>)
    requires
        grew_by_refs(a, b, cells),
        grew_by_refs(b, c, cells),
    ensures
        grew_by_refs(a, c, cells),
{
    assert(c.subrange(0, a.len() as int) =~= b.subrange(0, a.len() as int));
    assert forall|i: int| a.len() <= i < c.len() implies check_diag(dv(#[trigger] c[i])) || reports_unknown_cell(c[i], cells) by {
        if i < b.len() {
            assert(c[i] == b[i]);
        }
    }
}

proof fn lemma_checks_refs<'a>(a: Seq<Diagnostic>, b: Seq<Diagnostic>, cells: Seq<Decl<'a>>)
    requires
        grew_by_checks(a, b),
    ensures
        grew_by_refs(a, b, cells),
{
}

proof fn lemma_grew_refl(s: Seq<Diagnostic>)
    ensures
        grew_by_checks(s, s),
{
    assert(s.subrange(0, s.len() as int) =~= s);
}

proof fn lemma_grew_trans(a: Seq<Diagnostic>, b: Seq<Diagnostic>, c: Seq<Diagnostic>)
    requires
        grew_by_checks(a, b),
        grew_by_checks(b, c),
    ensures
        grew_by_checks(a, c),
{
    assert(c.subrange(0, a.len() as int) =~= b.subrange(0, a.len() as int));
    assert forall|i: int| a.len() <= i < c.len() implies check_diag(dv(#[trigger] c[i])) by {
        if i < b.len() {
            assert(c[i] == b[i]);
        }
    }
}

proof fn lemma_coh_trans(a: Seq<Diagnostic>, b: Seq<Diagnostic>, c: Seq<Diagnostic>)
    requires
        grew_by_coherence(a, b),
        grew_by_coherence(b, c),
    ensures
        grew_by_coherence(a, c),
        adds_duplicate_id(a, c) <==> adds_duplicate_id(a, b) || adds_duplicate_id(b, c),
{
    assert(c.subrange(0, a.len() as int) =~= b.subrange(0, a.len() as int));
    assert forall|i: int| a.len() <= i < c.len() implies coherence_diag(dv(#[trigger] c[i])) by {
        if i < b.len() {
            assert(c[i] == b[i]);
        }
    }
    if adds_duplicate_id(a, b) {
        let i = choose|i: int| a.len() <= i < b.len() && (#[trigger] b[i]).code@ == codes::E_COH_DUPLICATE_ID@;
        assert(c[i] == b[i]);
    }
    if adds_duplicate_id(a, c) {
        let i = choose|i: int| a.len() <= i < c.len() && (#[trigger] c[i]).code@ == codes::E_COH_DUPLICATE_ID@;
        if i < b.len() {
            assert(c[i] == b[i]);
        }
    }
}

/// What the reference checks add is coherence output with no duplicate id,
/// each unresolved-cell error naming an id not in `cells`.
proof fn lemma_refs_coherence<'a>(a: Seq<Diagnostic>, b: Seq<Diagnostic>, cells: Seq<Decl<'a>>)
    requires
        grew_by_refs(a, b, cells),
    ensures
        grew_by_coherence(a, b),
        !adds_duplicate_id(a, b),
        forall|i: int|
            a.len() <= i < b.len() && (#[trigger] b[i]).code@ == codes::E_COH_UNRESOLVED_CELL_REF@ ==> reports_unknown_cell(
                b[i],
                cells,
            ),
{
    lemma_code_letters();
    let dup = codes::E_COH_DUPLICATE_ID@;
    let unk = codes::E_COH_UNRESOLVED_CELL_REF@;
    assert forall|i: int| a.len() <= i < b.len() implies coherence_diag(dv(#[trigger] b[i])) && b[i].code@ != dup && (
    b[i].code@ == unk ==> reports_unknown_cell(b[i], cells)) by {
        if check_diag(dv(b[i])) {
            assert(b[i].code@ != unk);
        }
    }
}

/// The coherence codes differ from the duplicate-id and unresolved-cell
/// codes in their last digit or in their letter.
proof fn lemma_code_letters()
    ensures
        forall|c: Seq<char>| #[trigger] is_check_error_code(c) ==> c[12] != '0' && c[12] != '2' && c[8] == 'E',
        forall|c: Seq<char>| #[trigger] is_coherence_warning_code(c) ==> c[8] == 'W',
        codes::E_COH_DUPLICATE_ID@[12] == '0' && codes::E_COH_DUPLICATE_ID@[8] == 'E',
        codes::E_COH_UNRESOLVED_CELL_REF@[12] == '2' && codes::E_COH_UNRESOLVED_CELL_REF@[8] == 'E',
{
    reveal_strlit("memspec/E0250");
    reveal_strlit("memspec/E0251");
    reveal_strlit("memspec/E0252");
    reveal_strlit("memspec/E0253");
    reveal_strlit("memspec/E0254");
    reveal_strlit("memspec/E0255");
    reveal_strlit("memspec/E0256");
    reveal_strlit("memspec/E0257");
    reveal_strlit("memspec/E0258");
    reveal_strlit("memspec/E0259");
    reveal_strlit("memspec/W0270");
    reveal_strlit("memspec/W0271");
    reveal_strlit("memspec/W0272");
}

/// What the later checks add is coherence output with no duplicate id.
proof fn lemma_checks_coherence(a: Seq<Diagnostic>, b: Seq<Diagnostic>)
    requires
        grew_by_checks(a, b),
    ensures
        grew_by_coherence(a, b),
        !adds_duplicate_id(a, b),
{
    lemma_code_letters();
    let dup = codes::E_COH_DUPLICATE_ID@;
    assert forall|i: int| a.len() <= i < b.len() implies coherence_diag(dv(#[trigger] b[i])) && b[i].code@ != dup by {
        assert(check_diag(dv(b[i])));
    }
}

/// Push one coherence diagnostic.
fn push(out: &mut Vec<Diagnostic>, d: Diagnostic)
    requires
        check_diag(dv(d)),
    ensures
        grew_by_checks(old(out)@, final(out)@),
        final(out)@ == old(out)@.push(d),
{
    out.push(d);
    assert(out@.subrange(0, old(out)@.len() as int) =~= old(out)@);
}

// ---------------------------------------------------------------------------
// Symbol table
// ---------------------------------------------------------------------------

#[derive(Clone, Copy, PartialEq, Eq, Structural)]
enum IdKind {
    Cell,
    Derived,
    Association,
    Event,
    PostFailure,
    ForbiddenState,
    KillTest,
}

impl IdKind {
    fn label(self) -> (s: &'static str) {
        match self {
            IdKind::Cell => "cell",
            IdKind::Derived => "derived",
            IdKind::Association => "association",
            IdKind::Event => "event",
            IdKind::PostFailure => "post_failure",
            IdKind::ForbiddenState => "forbidden_state",
            IdKind::KillTest => "kill_test",
        }
    }
}

struct Decl<'a> {
    id: &'a str,
    span: Span,
    kind: IdKind,
    block: &'a BlockDecl,
}

struct EventEntry<'a> {
    decl: Decl<'a>,
    /// Step id to step block, sorted by step id.
    steps: Vec<(&'a str, &'a BlockDecl)>,
}

struct SymbolTable<'a> {
    cells: Vec<Decl<'a>>,
    derived: Vec<Decl<'a>>,
    associations: Vec<Decl<'a>>,
    events: Vec<EventEntry<'a>>,
    post_failures: Vec<Decl<'a>>,
    forbidden_states: Vec<Decl<'a>>,
    kill_tests: Vec<Decl<'a>>,
    /// Every declared id with the kind that claimed it first.
    by_name: Vec<(&'a str, IdKind)>,
}

/// Position at which `id` keeps `ids` sorted (after any equal ids).
fn sorted_slot(ids: &Vec<&str>, id: &str) -> (p: usize)
    ensures
        p <= ids@.len(),
        forall|j: int| 0 <= j < p ==> !bytes_lt(id.spec_bytes(), (#[trigger] ids@[j]).spec_bytes()),
        p < ids@.len() ==> bytes_lt(id.spec_bytes(), ids@[p as int].spec_bytes()),
{
    let mut p: usize = 0;
    while p < ids.len() && !str_lt(id, ids[p])
        invariant
            p <= ids@.len(),
            forall|j: int| 0 <= j < p ==> !bytes_lt(id.spec_bytes(), (#[trigger] ids@[j]).spec_bytes()),
        decreases ids@.len() - p,
    {
        p = p + 1;
    }
    p
}

fn decl_ids<'a>(v: &Vec<Decl<'a>>) -> (r: Vec<&'a str>)
    ensures
        r@.len() == v@.len(),
{
    let mut r: Vec<&'a str> = Vec::new();
    let mut i: usize = 0;
    while i < v.len()
        invariant
            i <= v@.len(),
            r@.len() == i,
        decreases v@.len() - i,
    {
        r.push(v[i].id);
        i = i + 1;
    }
    r
}

fn insert_decl<'a>(v: &mut Vec<Decl<'a>>, d: Decl<'a>)
    ensures
        forall|x: Seq<char>| #[trigger] in_decls(final(v)@, x) <==> in_decls(old(v)@, x) || x == d.id@,
        exists|p: int| 0 <= p <= old(v)@.len() && final(v)@ == old(v)@.insert(p, d),
{
    let ids = decl_ids(v);
    let p = sorted_slot(&ids, d.id);
    let ghost v0 = v@;
    v.insert(p, d);
    assert(v@ == v0.insert(p as int, d));
    proof {
        assert forall|x: Seq<char>| #[trigger] in_decls(v@, x) <==> in_decls(v0, x) || x == d.id@ by {
            if in_decls(v@, x) {
                let q = choose|q: int| 0 <= q < v@.len() && (#[trigger] v@[q]).id@ == x;
                if q < p {
                    assert(v@[q] == v0[q]);
                } else if q > p {
                    assert(v@[q] == v0[q - 1]);
                }
            }
            if in_decls(v0, x) {
                let q = choose|q: int| 0 <= q < v0.len() && (#[trigger] v0[q]).id@ == x;
                if q < p {
                    assert(v@[q] == v0[q]);
                } else {
                    assert(v@[q + 1] == v0[q]);
                }
            }
            if x == d.id@ {
                assert(v@[p as int] == d);
            }
        }
    }
}

fn insert_event<'a>(v: &mut Vec<EventEntry<'a>>, e: EventEntry<'a>)
    ensures
        exists|p: int| 0 <= p <= old(v)@.len() && final(v)@ == old(v)@.insert(p, e),
{
    let mut ids: Vec<&'a str> = Vec::new();
    let mut i: usize = 0;
    while i < v.len()
        invariant
            i <= v@.len(),
            ids@.len() == i,
        decreases v@.len() - i,
    {
        ids.push(v[i].decl.id);
        i = i + 1;
    }
    let p = sorted_slot(&ids, e.decl.id);
    let ghost v0 = v@;
    v.insert(p, e);
    assert(v@ == v0.insert(p as int, e));
}

fn find_decl<'a, 'b>(v: &'b Vec<Decl<'a>>, id: &str) -> (r: Option<&'b Decl<'a>>)
    ensures
        r is Some <==> in_decls(v@, id@),
{
    let mut i: usize = 0;
    while i < v.len()
        invariant
            i <= v@.len(),
            forall|q: int| 0 <= q < i ==> (#[trigger] v@[q]).id@ != id@,
        decreases v@.len() - i,
    {
        if str_eq(v[i].id, id) {
            return Some(&v[i]);
        }
        i = i + 1;
    }
    None
}

fn find_event<'a, 'b>(v: &'b Vec<EventEntry<'a>>, id: &str) -> (r: Option<&'b EventEntry<'a>>)
    ensures
        match r {
            Some(e) => exists|k: int|
                0 <= k < v@.len() && v@[k] == *e && e.decl.id@ == id@ && forall|j: int|
                    0 <= j < k ==> (#[trigger] v@[j]).decl.id@ != id@,
            None => forall|k: int| 0 <= k < v@.len() ==> (#[trigger] v@[k]).decl.id@ != id@,
        },
{
    let mut i: usize = 0;
    while i < v.len()
        invariant
            i <= v@.len(),
            forall|j: int| 0 <= j < i ==> (#[trigger] v@[j]).decl.id@ != id@,
        decreases v@.len() - i,
    {
        if str_eq(v[i].decl.id, id) {
            return Some(&v[i]);
        }
        i = i + 1;
    }
    None
}

fn find_step<'a, 'b>(steps: &'b Vec<(&'a str, &'a BlockDecl)>, id: &str) -> (r: Option<&'a BlockDecl>)
    ensures
        r is Some <==> exists|k: int| 0 <= k < steps@.len() && (#[trigger] steps@[k]).0@ == id@,
{
    let mut i: usize = 0;
    while i < steps.len()
        invariant
            i <= steps@.len(),
            forall|k: int| 0 <= k < i ==> (#[trigger] steps@[k]).0@ != id@,
        decreases steps@.len() - i,
    {
        if str_eq(steps[i].0, id) {
            return Some(steps[i].1);
        }
        i = i + 1;
    }
    None
}

impl<'a> SymbolTable<'a> {
    fn has_cell(&self, id: &str) -> (r: bool)
        ensures
            r <==> in_decls(self.cells@, id@),
    {
        find_decl(&self.cells, id).is_some()
    }

    /// `id` names a declared cell or derived.
    fn cell_or_derived(&self, id: &str) -> (r: Option<IdKind>)
        ensures
            r is None <==> !in_decls(self.cells@, id@) && !in_decls(self.derived@, id@),
    {
        if find_decl(&self.cells, id).is_some() {
            Some(IdKind::Cell)
        } else if find_decl(&self.derived, id).is_some() {
            Some(IdKind::Derived)
        } else {
            None
        }
    }

    fn first_kind(&self, id: &str) -> (r: Option<IdKind>)
        ensures
            r is Some <==> in_by_name(self.by_name@, id@),
    {
        let mut i: usize = 0;
        while i < self.by_name.len()
            invariant
                i <= self.by_name@.len(),
                forall|q: int| 0 <= q < i ==> (#[trigger] self.by_name@[q]).0@ != id@,
            decreases self.by_name@.len() - i,
        {
            if str_eq(self.by_name[i].0, id) {
                return Some(self.by_name[i].1);
            }
            i = i + 1;
        }
        None
    }
}

/// `id` is one of the ids recorded in `by_name`.
spec fn in_by_name(by_name: Seq<(&str, IdKind)>, id: Seq<char>) -> bool {
    exists|q: int| 0 <= q < by_name.len() && (#[trigger] by_name[q]).0@ == id
}

/// The kinds of block whose ids share the slice's namespace.
pub open spec fn is_slot_kind(k: Seq<char>) -> bool {
    ||| k == "cell"@
    ||| k == "derived"@
    ||| k == "association"@
    ||| k == "event"@
    ||| k == "post_failure"@
    ||| k == "forbidden_state"@
    ||| k == "kill_test"@
}

/// The id a top-level item declares: a block of a slot kind named by an
/// identifier.
pub open spec fn slot_id(it: BlockItem) -> Option<Seq<char>> {
    match it {
        BlockItem::Block(b) => if is_slot_kind(b.kind.name@) {
            match spec_block_name_ident(b) {
                Some(i) => Some(i.name@),
                None => None,
            }
        } else {
            None
        },
        BlockItem::Field(_) => None,
    }
}

/// Some item among the first `n` declares `id`.
pub open spec fn declared_before(items: Seq<BlockItem>, n: int, id: Seq<char>) -> bool {
    exists|j: int| 0 <= j < n && #[trigger] slot_id(items[j]) == Some(id)
}

/// Two of the first `n` items declare the same id.
pub open spec fn duplicate_within(items: Seq<BlockItem>, n: int) -> bool {
    exists|j: int, k: int| 0 <= j < k < n && (#[trigger] slot_id(items[j])) is Some && slot_id(items[j]) == #[trigger] slot_id(items[k])
}

/// Two top-level declarations of the slice share an id.
pub open spec fn has_duplicate_slot_id(s: SliceDecl) -> bool {
    duplicate_within(s.items@, s.items@.len() as int)
}

/// The first top-level declaration of `id` among the first `n` items is a
/// block of kind `kind`.
pub open spec fn declared_as_within(items: Seq<BlockItem>, n: int, id: Seq<char>, kind: Seq<char>) -> bool {
    exists|j: int|
        0 <= j < n && #[trigger] slot_id(items[j]) == Some(id) && !declared_before(items, j, id) && items[j]->Block_0.kind.name@
            == kind
}

/// The first top-level declaration of `id` is a block of kind `kind`.
pub open spec fn declared_as(items: Seq<BlockItem>, id: Seq<char>, kind: Seq<char>) -> bool {
    declared_as_within(items, items.len() as int, id, kind)
}

/// No diagnostic added to `old` in `new` is an unresolved-cell error.
pub open spec fn adds_no_unknown_cell(old: Seq<Diagnostic>, new: Seq<Diagnostic>) -> bool {
    forall|i: int| old.len() <= i < new.len() ==> (#[trigger] new[i]).code@ != codes::E_COH_UNRESOLVED_CELL_REF@
}

proof fn lemma_no_unknown_trans(a: Seq<Diagnostic>, b: Seq<Diagnostic>, c: Seq<Diagnostic>)
    requires
        adds_no_unknown_cell(a, b),
        b.len() <= c.len(),
        c.subrange(0, b.len() as int) == b,
        grew_by_checks(b, c) || (c.len() == b.len() + 1 && c.last().code@ == codes::E_COH_DUPLICATE_ID@),
    ensures
        adds_no_unknown_cell(a, c),
{
    lemma_code_letters();
    assert forall|i: int| a.len() <= i < c.len() implies (#[trigger] c[i]).code@ != codes::E_COH_UNRESOLVED_CELL_REF@ by {
        if i < b.len() {
            assert(c[i] == c.subrange(0, b.len() as int)[i]);
        } else if grew_by_checks(b, c) {
            assert(check_diag(dv(c[i])));
        }
    }
}

/// The item at `j` is the first top-level declaration of its id.
pub open spec fn first_decl_at(items: Seq<BlockItem>, j: int) -> bool {
    &&& 0 <= j < items.len()
    &&& slot_id(items[j]) is Some
    &&& !declared_before(items, j, slot_id(items[j])->0)
}

/// The kind of the block at `j`.
pub open spec fn kind_at(items: Seq<BlockItem>, j: int) -> Seq<char> {
    items[j]->Block_0.kind.name@
}

/// The ids whose first top-level declaration is of kind `kind`.
pub open spec fn declared_set(items: Seq<BlockItem>, kind: Seq<char>) -> Set<Seq<char>> {
    Set::new(|x: Seq<char>| declared_as(items, x, kind))
}

/// The id a step block of an event declares.
pub open spec fn step_id(it: BlockItem) -> Option<Seq<char>> {
    match it {
        BlockItem::Block(b) => if b.kind.name@ == "step"@ {
            match spec_block_name_ident(b) {
                Some(i) => Some(i.name@),
                None => None,
            }
        } else {
            None
        },
        BlockItem::Field(_) => None,
    }
}

/// Some step among the first `n` items declares `id`.
pub open spec fn step_before(items: Seq<BlockItem>, n: int, id: Seq<char>) -> bool {
    exists|m: int| 0 <= m < n && #[trigger] step_id(items[m]) == Some(id)
}

/// The item at `m` is the first step with its id.
pub open spec fn first_step_at(items: Seq<BlockItem>, m: int) -> bool {
    &&& 0 <= m < items.len()
    &&& step_id(items[m]) is Some
    &&& !step_before(items, m, step_id(items[m])->0)
}

/// `d` is the table entry for the declaration at `j`.
spec fn decl_from<'a>(items: Seq<BlockItem>, j: int, d: Decl<'a>) -> bool {
    &&& first_decl_at(items, j)
    &&& items[j] is Block
    &&& *d.block == items[j]->Block_0
    &&& Some(d.id@) == slot_id(items[j])
}

/// `d` is the entry for one of the first `n` items, of kind `kind`.
spec fn decl_ok<'a>(items: Seq<BlockItem>, n: int, d: Decl<'a>, kind: Seq<char>) -> bool {
    exists|j: int| 0 <= j < n && #[trigger] decl_from(items, j, d) && kind_at(items, j) == kind
}

/// `st` is the entry for one of the first `n` items.
spec fn step_ok<'a>(items: Seq<BlockItem>, n: int, st: (&'a str, &'a BlockDecl)) -> bool {
    exists|m: int| 0 <= m < n && #[trigger] step_from(items, m, st)
}

/// The table `v` holds exactly the first declarations of kind `kind` among
/// the first `n` items.
spec fn covers<'a>(items: Seq<BlockItem>, n: int, v: Seq<Decl<'a>>, kind: Seq<char>) -> bool {
    &&& forall|q: int| 0 <= q < v.len() ==> #[trigger] decl_ok(items, n, v[q], kind)
    &&& forall|j: int|
        0 <= j < n && #[trigger] first_decl_at(items, j) && kind_at(items, j) == kind ==> exists|q: int|
            0 <= q < v.len() && #[trigger] decl_from(items, j, v[q])
}

/// `st` is the step table entry for the step at `m`.
spec fn step_from<'a>(items: Seq<BlockItem>, m: int, st: (&'a str, &'a BlockDecl)) -> bool {
    &&& first_step_at(items, m)
    &&& items[m] is Block
    &&& *st.1 == items[m]->Block_0
    &&& Some(st.0@) == step_id(items[m])
}

/// The step table `v` holds exactly the first steps of each id among the
/// first `n` items.
spec fn steps_cover<'a>(items: Seq<BlockItem>, n: int, v: Seq<(&'a str, &'a BlockDecl)>) -> bool {
    &&& forall|k: int| 0 <= k < v.len() ==> #[trigger] step_ok(items, n, v[k])
    &&& forall|m: int|
        0 <= m < n && #[trigger] first_step_at(items, m) ==> exists|k: int| 0 <= k < v.len() && #[trigger] step_from(items, m, v[k])
}

/// The event table holds exactly the first event declarations among the
/// first `n` items, each with the table of its first steps.
spec fn events_cover<'a>(items: Seq<BlockItem>, n: int, v: Seq<EventEntry<'a>>) -> bool {
    &&& forall|q: int| 0 <= q < v.len() ==> #[trigger] decl_ok(items, n, v[q].decl, "event"@)
    &&& forall|j: int|
        0 <= j < n && #[trigger] first_decl_at(items, j) && kind_at(items, j) == "event"@ ==> exists|q: int|
            0 <= q < v.len() && #[trigger] decl_from(items, j, v[q].decl)
    &&& forall|q: int| 0 <= q < v.len() ==> steps_cover((#[trigger] v[q]).decl.block.items@, v[q].decl.block.items@.len() as int, v[q].steps@)
}

proof fn lemma_covers_skip<'a>(items: Seq<BlockItem>, i: int, v: Seq<Decl<'a>>, kind: Seq<char>)
    requires
        0 <= i,
        covers(items, i, v, kind),
        !(first_decl_at(items, i) && kind_at(items, i) == kind),
    ensures
        covers(items, i + 1, v, kind),
{
    assert forall|q: int| 0 <= q < v.len() implies #[trigger] decl_ok(items, i + 1, v[q], kind) by {
        assert(decl_ok(items, i, v[q], kind));
        let j = choose|j: int| 0 <= j < i && #[trigger] decl_from(items, j, v[q]) && kind_at(items, j) == kind;
    }
}

proof fn lemma_covers_insert<'a>(items: Seq<BlockItem>, i: int, v: Seq<Decl<'a>>, p: int, d: Decl<'a>, kind: Seq<char>)
    requires
        0 <= i,
        covers(items, i, v, kind),
        decl_from(items, i, d),
        kind_at(items, i) == kind,
        0 <= p <= v.len(),
    ensures
        covers(items, i + 1, v.insert(p, d), kind),
{
    let w = v.insert(p, d);
    assert forall|q: int| 0 <= q < w.len() implies #[trigger] decl_ok(items, i + 1, w[q], kind) by {
        if q < p {
            assert(w[q] == v[q]);
            assert(decl_ok(items, i, v[q], kind));
            let j = choose|j: int| 0 <= j < i && #[trigger] decl_from(items, j, v[q]) && kind_at(items, j) == kind;
        } else if q == p {
            assert(w[q] == d);
            assert(decl_from(items, i, w[q]));
        } else {
            assert(w[q] == v[q - 1]);
            assert(decl_ok(items, i, v[q - 1], kind));
            let j = choose|j: int| 0 <= j < i && #[trigger] decl_from(items, j, v[q - 1]) && kind_at(items, j) == kind;
        }
    }
    assert forall|j: int| 0 <= j < i + 1 && #[trigger] first_decl_at(items, j) && kind_at(items, j) == kind implies exists|q: int|
        0 <= q < w.len() && #[trigger] decl_from(items, j, w[q]) by {
        if j < i {
            let q = choose|q: int| 0 <= q < v.len() && #[trigger] decl_from(items, j, v[q]);
            if q < p {
                assert(w[q] == v[q]);
            } else {
                assert(w[q + 1] == v[q]);
            }
        } else {
            assert(w[p] == d);
        }
    }
}

proof fn lemma_steps_skip<'a>(items: Seq<BlockItem>, i: int, v: Seq<(&'a str, &'a BlockDecl)>)
    requires
        0 <= i,
        steps_cover(items, i, v),
        !first_step_at(items, i),
    ensures
        steps_cover(items, i + 1, v),
{
    assert forall|k: int| 0 <= k < v.len() implies #[trigger] step_ok(items, i + 1, v[k]) by {
        assert(step_ok(items, i, v[k]));
        let m = choose|m: int| 0 <= m < i && #[trigger] step_from(items, m, v[k]);
    }
}

proof fn lemma_steps_insert<'a>(items: Seq<BlockItem>, i: int, v: Seq<(&'a str, &'a BlockDecl)>, p: int, st: (&'a str, &'a BlockDecl))
    requires
        0 <= i,
        steps_cover(items, i, v),
        step_from(items, i, st),
        0 <= p <= v.len(),
    ensures
        steps_cover(items, i + 1, v.insert(p, st)),
{
    let w = v.insert(p, st);
    assert forall|k: int| 0 <= k < w.len() implies #[trigger] step_ok(items, i + 1, w[k]) by {
        if k < p {
            assert(w[k] == v[k]);
            assert(step_ok(items, i, v[k]));
            let m = choose|m: int| 0 <= m < i && #[trigger] step_from(items, m, v[k]);
        } else if k == p {
            assert(w[k] == st);
            assert(step_from(items, i, w[k]));
        } else {
            assert(w[k] == v[k - 1]);
            assert(step_ok(items, i, v[k - 1]));
            let m = choose|m: int| 0 <= m < i && #[trigger] step_from(items, m, v[k - 1]);
        }
    }
    assert forall|m: int| 0 <= m < i + 1 && #[trigger] first_step_at(items, m) implies exists|k: int|
        0 <= k < w.len() && #[trigger] step_from(items, m, w[k]) by {
        if m < i {
            let k = choose|k: int| 0 <= k < v.len() && #[trigger] step_from(items, m, v[k]);
            if k < p {
                assert(w[k] == v[k]);
            } else {
                assert(w[k + 1] == v[k]);
            }
        } else {
            assert(w[p] == st);
        }
    }
}

proof fn lemma_events_skip<'a>(items: Seq<BlockItem>, i: int, v: Seq<EventEntry<'a>>)
    requires
        0 <= i,
        events_cover(items, i, v),
        !(first_decl_at(items, i) && kind_at(items, i) == "event"@),
    ensures
        events_cover(items, i + 1, v),
{
    assert forall|q: int| 0 <= q < v.len() implies #[trigger] decl_ok(items, i + 1, v[q].decl, "event"@) by {
        assert(decl_ok(items, i, v[q].decl, "event"@));
        let j = choose|j: int| 0 <= j < i && #[trigger] decl_from(items, j, v[q].decl) && kind_at(items, j) == "event"@;
    }
}

proof fn lemma_events_insert<'a>(items: Seq<BlockItem>, i: int, v: Seq<EventEntry<'a>>, p: int, e: EventEntry<'a>)
    requires
        0 <= i,
        events_cover(items, i, v),
        decl_from(items, i, e.decl),
        kind_at(items, i) == "event"@,
        steps_cover(e.decl.block.items@, e.decl.block.items@.len() as int, e.steps@),
        0 <= p <= v.len(),
    ensures
        events_cover(items, i + 1, v.insert(p, e)),
{
    let w = v.insert(p, e);
    assert forall|q: int| 0 <= q < w.len() implies #[trigger] decl_ok(items, i + 1, w[q].decl, "event"@) by {
        if q < p {
            assert(w[q] == v[q]);
            assert(decl_ok(items, i, v[q].decl, "event"@));
            let j = choose|j: int| 0 <= j < i && #[trigger] decl_from(items, j, v[q].decl) && kind_at(items, j) == "event"@;
        } else if q == p {
            assert(w[q] == e);
            assert(decl_from(items, i, w[q].decl));
        } else {
            assert(w[q] == v[q - 1]);
            assert(decl_ok(items, i, v[q - 1].decl, "event"@));
            let j = choose|j: int| 0 <= j < i && #[trigger] decl_from(items, j, v[q - 1].decl) && kind_at(items, j) == "event"@;
        }
    }
    assert forall|j: int| 0 <= j < i + 1 && #[trigger] first_decl_at(items, j) && kind_at(items, j) == "event"@ implies exists|q: int|
        0 <= q < w.len() && #[trigger] decl_from(items, j, w[q].decl) by {
        if j < i {
            let q = choose|q: int| 0 <= q < v.len() && #[trigger] decl_from(items, j, v[q].decl);
            if q < p {
                assert(w[q] == v[q]);
            } else {
                assert(w[q + 1] == v[q]);
            }
        } else {
            assert(w[p] == e);
        }
    }
    assert forall|q: int| 0 <= q < w.len() implies steps_cover((#[trigger] w[q]).decl.block.items@, w[q].decl.block.items@.len() as int, w[q].steps@) by {
        if q < p {
            assert(w[q] == v[q]);
        } else if q > p {
            assert(w[q] == v[q - 1]);
        }
    }
}

/// `v` is an unresolved-cell error of the block `b`, resolving against
/// `cells` and `derived`: for a derived its `derives_from`, for an
/// association its `over` (both may name derived values too), for an event
/// its `mutates` and those of its first step of each id, for a
/// forbidden_state its `cells`, for a post_failure its `cells_after`
/// variants.
pub open spec fn block_cell_error(b: BlockDecl, cells: Set<Seq<char>>, derived: Set<Seq<char>>, v: DiagView) -> bool {
    let k = b.kind.name@;
    ||| k == "derived"@ && field_ident_errors(b, "derives_from"@, cells, derived, true).contains(v)
    ||| k == "association"@ && field_ident_errors(b, "over"@, cells, derived, true).contains(v)
    ||| k == "event"@ && (field_ident_errors(b, "mutates"@, cells, derived, false).contains(v) || exists|m: int|
        first_step_at(b.items@, m) && #[trigger] field_ident_errors(b.items@[m]->Block_0, "mutates"@, cells, derived, false).contains(v))
    ||| k == "forbidden_state"@ && cell_key_errors(b, "cells"@, cells).contains(v)
    ||| k == "post_failure"@ && post_failure_errors(b, cells).contains(v)
}

/// `v` is an unresolved-cell error of the slice `items`: of the first
/// declaration of some id, resolving against the ids first declared as
/// cells and as derived.
pub open spec fn cell_error_in(items: Seq<BlockItem>, v: DiagView) -> bool {
    exists|j: int|
        first_decl_at(items, j) && #[trigger] block_cell_error(
            items[j]->Block_0,
            declared_set(items, "cell"@),
            declared_set(items, "derived"@),
            v,
        )
}

proof fn lemma_contains_add(a: Seq<DiagView>, b: Seq<DiagView>, x: DiagView)
    ensures
        (a + b).contains(x) <==> a.contains(x) || b.contains(x),
{
    if (a + b).contains(x) {
        let i = choose|i: int| 0 <= i < (a + b).len() && (a + b)[i] == x;
        if i < a.len() {
            assert(a[i] == x);
        } else {
            assert(b[i - a.len()] == x);
        }
    }
    if a.contains(x) {
        let i = choose|i: int| 0 <= i < a.len() && a[i] == x;
        assert((a + b)[i] == x);
    }
    if b.contains(x) {
        let i = choose|i: int| 0 <= i < b.len() && b[i] == x;
        assert((a + b)[a.len() + i] == x);
    }
}

proof fn lemma_decls_field_contains<'a>(
    v: Seq<Decl<'a>>,
    key: Seq<char>,
    c: Set<Seq<char>>,
    d: Set<Seq<char>>,
    allow: bool,
    x: DiagView,
)
    ensures
        decls_field_errors(v, key, c, d, allow).contains(x) <==> exists|q: int|
            0 <= q < v.len() && #[trigger] field_ident_errors(*v[q].block, key, c, d, allow).contains(x),
    decreases v.len(),
{
    if v.len() > 0 {
        let w = v.drop_last();
        lemma_decls_field_contains(w, key, c, d, allow, x);
        lemma_contains_add(decls_field_errors(w, key, c, d, allow), field_ident_errors(*v.last().block, key, c, d, allow), x);
        if exists|q: int| 0 <= q < v.len() && #[trigger] field_ident_errors(*v[q].block, key, c, d, allow).contains(x) {
            let q = choose|q: int| 0 <= q < v.len() && #[trigger] field_ident_errors(*v[q].block, key, c, d, allow).contains(x);
            if q < w.len() {
                assert(w[q] == v[q]);
            }
        }
        if exists|q: int| 0 <= q < w.len() && #[trigger] field_ident_errors(*w[q].block, key, c, d, allow).contains(x) {
            let q = choose|q: int| 0 <= q < w.len() && #[trigger] field_ident_errors(*w[q].block, key, c, d, allow).contains(x);
            assert(w[q] == v[q]);
        }
    }
}

proof fn lemma_decls_key_contains<'a>(v: Seq<Decl<'a>>, key: Seq<char>, c: Set<Seq<char>>, x: DiagView)
    ensures
        decls_key_errors(v, key, c).contains(x) <==> exists|q: int|
            0 <= q < v.len() && #[trigger] cell_key_errors(*v[q].block, key, c).contains(x),
    decreases v.len(),
{
    if v.len() > 0 {
        let w = v.drop_last();
        lemma_decls_key_contains(w, key, c, x);
        lemma_contains_add(decls_key_errors(w, key, c), cell_key_errors(*v.last().block, key, c), x);
        if exists|q: int| 0 <= q < v.len() && #[trigger] cell_key_errors(*v[q].block, key, c).contains(x) {
            let q = choose|q: int| 0 <= q < v.len() && #[trigger] cell_key_errors(*v[q].block, key, c).contains(x);
            if q < w.len() {
                assert(w[q] == v[q]);
            }
        }
        if exists|q: int| 0 <= q < w.len() && #[trigger] cell_key_errors(*w[q].block, key, c).contains(x) {
            let q = choose|q: int| 0 <= q < w.len() && #[trigger] cell_key_errors(*w[q].block, key, c).contains(x);
            assert(w[q] == v[q]);
        }
    }
}

proof fn lemma_pf_contains<'a>(v: Seq<Decl<'a>>, c: Set<Seq<char>>, x: DiagView)
    ensures
        pf_errors(v, c).contains(x) <==> exists|q: int| 0 <= q < v.len() && #[trigger] post_failure_errors(*v[q].block, c).contains(x),
    decreases v.len(),
{
    if v.len() > 0 {
        let w = v.drop_last();
        lemma_pf_contains(w, c, x);
        lemma_contains_add(pf_errors(w, c), post_failure_errors(*v.last().block, c), x);
        if exists|q: int| 0 <= q < v.len() && #[trigger] post_failure_errors(*v[q].block, c).contains(x) {
            let q = choose|q: int| 0 <= q < v.len() && #[trigger] post_failure_errors(*v[q].block, c).contains(x);
            if q < w.len() {
                assert(w[q] == v[q]);
            }
        }
        if exists|q: int| 0 <= q < w.len() && #[trigger] post_failure_errors(*w[q].block, c).contains(x) {
            let q = choose|q: int| 0 <= q < w.len() && #[trigger] post_failure_errors(*w[q].block, c).contains(x);
            assert(w[q] == v[q]);
        }
    }
}

proof fn lemma_steps_contains<'a>(v: Seq<(&'a str, &'a BlockDecl)>, c: Set<Seq<char>>, d: Set<Seq<char>>, x: DiagView)
    ensures
        steps_errors(v, c, d).contains(x) <==> exists|k: int|
            0 <= k < v.len() && #[trigger] field_ident_errors(*v[k].1, "mutates"@, c, d, false).contains(x),
    decreases v.len(),
{
    if v.len() > 0 {
        let w = v.drop_last();
        lemma_steps_contains(w, c, d, x);
        lemma_contains_add(steps_errors(w, c, d), field_ident_errors(*v.last().1, "mutates"@, c, d, false), x);
        if exists|k: int| 0 <= k < v.len() && #[trigger] field_ident_errors(*v[k].1, "mutates"@, c, d, false).contains(x) {
            let k = choose|k: int| 0 <= k < v.len() && #[trigger] field_ident_errors(*v[k].1, "mutates"@, c, d, false).contains(x);
            if k < w.len() {
                assert(w[k] == v[k]);
            }
        }
        if exists|k: int| 0 <= k < w.len() && #[trigger] field_ident_errors(*w[k].1, "mutates"@, c, d, false).contains(x) {
            let k = choose|k: int| 0 <= k < w.len() && #[trigger] field_ident_errors(*w[k].1, "mutates"@, c, d, false).contains(x);
            assert(w[k] == v[k]);
        }
    }
}

/// The errors of one event entry: its own `mutates`, then its steps'.
spec fn event_entry_errors<'a>(e: EventEntry<'a>, c: Set<Seq<char>>, d: Set<Seq<char>>) -> Seq<DiagView> {
    field_ident_errors(*e.decl.block, "mutates"@, c, d, false) + steps_errors(e.steps@, c, d)
}

proof fn lemma_events_contains<'a>(v: Seq<EventEntry<'a>>, c: Set<Seq<char>>, d: Set<Seq<char>>, x: DiagView)
    ensures
        events_errors(v, c, d).contains(x) <==> exists|q: int| 0 <= q < v.len() && #[trigger] event_entry_errors(v[q], c, d).contains(x),
    decreases v.len(),
{
    if v.len() > 0 {
        let w = v.drop_last();
        lemma_events_contains(w, c, d, x);
        assert(events_errors(v, c, d) =~= events_errors(w, c, d) + event_entry_errors(v.last(), c, d));
        lemma_contains_add(events_errors(w, c, d), event_entry_errors(v.last(), c, d), x);
        if exists|q: int| 0 <= q < v.len() && #[trigger] event_entry_errors(v[q], c, d).contains(x) {
            let q = choose|q: int| 0 <= q < v.len() && #[trigger] event_entry_errors(v[q], c, d).contains(x);
            if q < w.len() {
                assert(w[q] == v[q]);
            }
        }
        if exists|q: int| 0 <= q < w.len() && #[trigger] event_entry_errors(w[q], c, d).contains(x) {
            let q = choose|q: int| 0 <= q < w.len() && #[trigger] event_entry_errors(w[q], c, d).contains(x);
            assert(w[q] == v[q]);
        }
    }
}

proof fn lemma_kinds_distinct()
    ensures
        "derived"@ != "association"@,
        "derived"@ != "event"@,
        "derived"@ != "forbidden_state"@,
        "derived"@ != "post_failure"@,
        "association"@ != "event"@,
        "association"@ != "forbidden_state"@,
        "association"@ != "post_failure"@,
        "event"@ != "forbidden_state"@,
        "event"@ != "post_failure"@,
        "forbidden_state"@ != "post_failure"@,
        "cell"@ != "derived"@,
{
    reveal_strlit("cell");
    reveal_strlit("derived");
    reveal_strlit("association");
    reveal_strlit("event");
    reveal_strlit("post_failure");
    reveal_strlit("forbidden_state");
    assert("cell"@.len() == 4);
    assert("derived"@.len() == 7);
    assert("association"@.len() == 11);
    assert("event"@.len() == 5);
    assert("post_failure"@.len() == 12);
    assert("forbidden_state"@.len() == 15);
}

/// A table covering the slice holds exactly the ids first declared as its
/// kind.
proof fn lemma_id_set<'a>(items: Seq<BlockItem>, v: Seq<Decl<'a>>, kind: Seq<char>)
    requires
        covers(items, items.len() as int, v, kind),
    ensures
        id_set(v) == declared_set(items, kind),
{
    assert forall|x: Seq<char>| #[trigger] id_set(v).contains(x) <==> declared_set(items, kind).contains(x) by {
        if in_decls(v, x) {
            let q = choose|q: int| 0 <= q < v.len() && (#[trigger] v[q]).id@ == x;
            assert(decl_ok(items, items.len() as int, v[q], kind));
            let j = choose|j: int| 0 <= j < items.len() && #[trigger] decl_from(items, j, v[q]) && kind_at(items, j) == kind;
            assert(slot_id(items[j]) == Some(x));
            assert(declared_as_within(items, items.len() as int, x, kind));
        }
        if declared_as(items, x, kind) {
            let j = choose|j: int|
                0 <= j < items.len() && #[trigger] slot_id(items[j]) == Some(x) && !declared_before(items, j, x) && items[j]->Block_0.kind.name@
                    == kind;
            assert(first_decl_at(items, j));
            let q = choose|q: int| 0 <= q < v.len() && #[trigger] decl_from(items, j, v[q]);
            assert(v[q].id@ == x);
        }
    }
    assert(id_set(v) =~= declared_set(items, kind));
}

/// What the reference checks report for tables covering the slice are
/// exactly the slice's unresolved-cell errors.
proof fn lemma_table_errors_contains<'a>(items: Seq<BlockItem>, t: SymbolTable<'a>, x: DiagView)
    requires
        tables_cover(items, items.len() as int, t),
    ensures
        table_errors(t).contains(x) <==> cell_error_in(items, x),
{
    let n = items.len() as int;
    let c = id_set(t.cells@);
    let d = id_set(t.derived@);
    lemma_id_set(items, t.cells@, "cell"@);
    lemma_id_set(items, t.derived@, "derived"@);
    let cs = declared_set(items, "cell"@);
    let ds = declared_set(items, "derived"@);
    lemma_kinds_distinct();
    let p1 = decls_field_errors(t.derived@, "derives_from"@, c, d, true);
    let p2 = decls_field_errors(t.associations@, "over"@, c, d, true);
    let p3 = events_errors(t.events@, c, d);
    let p4 = decls_key_errors(t.forbidden_states@, "cells"@, c);
    let p5 = pf_errors(t.post_failures@, c);
    lemma_contains_add(p1 + p2 + p3 + p4, p5, x);
    lemma_contains_add(p1 + p2 + p3, p4, x);
    lemma_contains_add(p1 + p2, p3, x);
    lemma_contains_add(p1, p2, x);
    lemma_decls_field_contains(t.derived@, "derives_from"@, c, d, true, x);
    lemma_decls_field_contains(t.associations@, "over"@, c, d, true, x);
    lemma_events_contains(t.events@, c, d, x);
    lemma_decls_key_contains(t.forbidden_states@, "cells"@, c, x);
    lemma_pf_contains(t.post_failures@, c, x);
    if table_errors(t).contains(x) {
        if p1.contains(x) {
            let q = choose|q: int| 0 <= q < t.derived@.len() && #[trigger] field_ident_errors(*t.derived@[q].block, "derives_from"@, c, d, true).contains(x);
            assert(decl_ok(items, n, t.derived@[q], "derived"@));
            let j = choose|j: int| 0 <= j < n && #[trigger] decl_from(items, j, t.derived@[q]) && kind_at(items, j) == "derived"@;
            assert(block_cell_error(items[j]->Block_0, cs, ds, x));
        } else if p2.contains(x) {
            let q = choose|q: int| 0 <= q < t.associations@.len() && #[trigger] field_ident_errors(*t.associations@[q].block, "over"@, c, d, true).contains(x);
            assert(decl_ok(items, n, t.associations@[q], "association"@));
            let j = choose|j: int| 0 <= j < n && #[trigger] decl_from(items, j, t.associations@[q]) && kind_at(items, j) == "association"@;
            assert(block_cell_error(items[j]->Block_0, cs, ds, x));
        } else if p3.contains(x) {
            let q = choose|q: int| 0 <= q < t.events@.len() && #[trigger] event_entry_errors(t.events@[q], c, d).contains(x);
            let e = t.events@[q];
            assert(decl_ok(items, n, e.decl, "event"@));
            let j = choose|j: int| 0 <= j < n && #[trigger] decl_from(items, j, e.decl) && kind_at(items, j) == "event"@;
            let b = items[j]->Block_0;
            lemma_contains_add(field_ident_errors(*e.decl.block, "mutates"@, c, d, false), steps_errors(e.steps@, c, d), x);
            if !field_ident_errors(b, "mutates"@, c, d, false).contains(x) {
                lemma_steps_contains(e.steps@, c, d, x);
                let k = choose|k: int| 0 <= k < e.steps@.len() && #[trigger] field_ident_errors(*e.steps@[k].1, "mutates"@, c, d, false).contains(x);
                assert(steps_cover(b.items@, b.items@.len() as int, e.steps@));
                assert(step_ok(b.items@, b.items@.len() as int, e.steps@[k]));
                let m = choose|m: int| 0 <= m < b.items@.len() && #[trigger] step_from(b.items@, m, e.steps@[k]);
                assert(field_ident_errors(b.items@[m]->Block_0, "mutates"@, cs, ds, false).contains(x));
            }
            assert(block_cell_error(b, cs, ds, x));
        } else if p4.contains(x) {
            let q = choose|q: int| 0 <= q < t.forbidden_states@.len() && #[trigger] cell_key_errors(*t.forbidden_states@[q].block, "cells"@, c).contains(x);
            assert(decl_ok(items, n, t.forbidden_states@[q], "forbidden_state"@));
            let j = choose|j: int| 0 <= j < n && #[trigger] decl_from(items, j, t.forbidden_states@[q]) && kind_at(items, j) == "forbidden_state"@;
            assert(block_cell_error(items[j]->Block_0, cs, ds, x));
        } else {
            assert(p5.contains(x));
            let q = choose|q: int| 0 <= q < t.post_failures@.len() && #[trigger] post_failure_errors(*t.post_failures@[q].block, c).contains(x);
            assert(decl_ok(items, n, t.post_failures@[q], "post_failure"@));
            let j = choose|j: int| 0 <= j < n && #[trigger] decl_from(items, j, t.post_failures@[q]) && kind_at(items, j) == "post_failure"@;
            assert(block_cell_error(items[j]->Block_0, cs, ds, x));
        }
    }
    if cell_error_in(items, x) {
        let j = choose|j: int| first_decl_at(items, j) && #[trigger] block_cell_error(items[j]->Block_0, cs, ds, x);
        let b = items[j]->Block_0;
        let k = b.kind.name@;
        assert(kind_at(items, j) == k);
        if k == "derived"@ {
            let q = choose|q: int| 0 <= q < t.derived@.len() && #[trigger] decl_from(items, j, t.derived@[q]);
            assert(field_ident_errors(*t.derived@[q].block, "derives_from"@, c, d, true).contains(x));
        } else if k == "association"@ {
            let q = choose|q: int| 0 <= q < t.associations@.len() && #[trigger] decl_from(items, j, t.associations@[q]);
            assert(field_ident_errors(*t.associations@[q].block, "over"@, c, d, true).contains(x));
        } else if k == "event"@ {
            let q = choose|q: int| 0 <= q < t.events@.len() && #[trigger] decl_from(items, j, t.events@[q].decl);
            let e = t.events@[q];
            lemma_contains_add(field_ident_errors(*e.decl.block, "mutates"@, c, d, false), steps_errors(e.steps@, c, d), x);
            if !field_ident_errors(b, "mutates"@, cs, ds, false).contains(x) {
                let m = choose|m: int|
                    first_step_at(b.items@, m) && #[trigger] field_ident_errors(b.items@[m]->Block_0, "mutates"@, cs, ds, false).contains(x);
                assert(steps_cover(b.items@, b.items@.len() as int, e.steps@));
                let kk = choose|kk: int| 0 <= kk < e.steps@.len() && #[trigger] step_from(b.items@, m, e.steps@[kk]);
                lemma_steps_contains(e.steps@, c, d, x);
                assert(field_ident_errors(*e.steps@[kk].1, "mutates"@, c, d, false).contains(x));
            }
            assert(event_entry_errors(t.events@[q], c, d).contains(x));
        } else if k == "forbidden_state"@ {
            let q = choose|q: int| 0 <= q < t.forbidden_states@.len() && #[trigger] decl_from(items, j, t.forbidden_states@[q]);
            assert(cell_key_errors(*t.forbidden_states@[q].block, "cells"@, c).contains(x));
        } else {
            assert(k == "post_failure"@);
            let q = choose|q: int| 0 <= q < t.post_failures@.len() && #[trigger] decl_from(items, j, t.post_failures@[q]);
            assert(post_failure_errors(*t.post_failures@[q].block, c).contains(x));
        }
    }
}

proof fn lemma_no_unknown_empty(a: Seq<Diagnostic>, b: Seq<Diagnostic>)
    requires
        extends(a, b),
        adds_no_unknown_cell(a, b),
    ensures
        unknown_only(added(a, b)) == Seq::<DiagView>::empty(),
    decreases b.len() - a.len(),
{
    let s = added(a, b);
    if b.len() > a.len() {
        let b1 = b.drop_last();
        assert(b1.subrange(0, a.len() as int) =~= b.subrange(0, a.len() as int));
        assert forall|i: int| a.len() <= i < b1.len() implies (#[trigger] b1[i]).code@ != codes::E_COH_UNRESOLVED_CELL_REF@ by {
            assert(b1[i] == b[i]);
        }
        lemma_no_unknown_empty(a, b1);
        assert(s.drop_last() =~= added(a, b1));
        assert(s.last() == dv(b[b.len() - 1]));
    } else {
        assert(s =~= Seq::<DiagView>::empty());
    }
}

/// Append coherence diagnostics to `out`. What is already in `out` stays;
/// every appended diagnostic carries a coherence code, errors as errors and
/// the three coherence warnings as warnings; a duplicate-id error is among
/// them exactly when two top-level declarations share an id; and the
/// unresolved-cell errors among them are exactly the slice's references,
/// by its first declarations, to ids not first declared as cells (or, for
/// `derives_from` and `over`, as derived).
pub fn run(file: &File, out: &mut Vec<Diagnostic>)
    ensures
        grew_by_coherence(old(out)@, final(out)@),
        adds_duplicate_id(old(out)@, final(out)@) <==> (file.slice matches Some(s) && has_duplicate_slot_id(s)),
        file.slice matches Some(s) ==> forall|k: int|
            old(out)@.len() <= k < final(out)@.len() && (#[trigger] final(out)@[k]).code@
                == codes::E_COH_UNRESOLVED_CELL_REF@ ==> exists|id: Seq<char>|
                final(out)@[k].message@ == #[trigger] unknown_cell_message(id) && !declared_as(s.items@, id, "cell"@),
        file.slice matches Some(s) ==> forall|x: DiagView|
            #[trigger] unknown_only(added(old(out)@, final(out)@)).contains(x) <==> cell_error_in(s.items@, x),
{
    let slice = match &file.slice {
        Some(s) => s,
        None => {
            assert(out@.subrange(0, out@.len() as int) =~= out@);
            return;
        },
    };
    let ghost o0 = out@;
    let symbols = build_symbol_table(slice, out);
    let ghost o1 = out@;
    check_refs(&symbols, out);
    let ghost o2 = out@;
    check_bipartite(&symbols, out);
    let ghost o3 = out@;
    check_derivation_cycles(&symbols, out);
    let ghost o4 = out@;
    check_warnings(&symbols, out);
    proof {
        lemma_grew_trans(o2, o3, o4);
        lemma_grew_trans(o2, o4, out@);
        lemma_checks_refs(o2, out@, symbols.cells@);
        lemma_refs_trans(o1, o2, out@, symbols.cells@);
        lemma_refs_coherence(o1, out@, symbols.cells@);
        lemma_coh_trans(o0, o1, out@);
        lemma_no_unknown_empty(o0, o1);
        lemma_checks_no_unknown(o2, out@);
        lemma_added_split(o0, o1, o2);
        lemma_added_split(o0, o2, out@);
        assert(unknown_only(added(o0, out@)) =~= table_errors(symbols));
        assert forall|x: DiagView| #[trigger] unknown_only(added(o0, out@)).contains(x) <==> cell_error_in(slice.items@, x) by {
            lemma_table_errors_contains(slice.items@, symbols, x);
        }
        let items = slice.items@;
        assert forall|k: int|
            o0.len() <= k < out@.len() && (#[trigger] out@[k]).code@ == codes::E_COH_UNRESOLVED_CELL_REF@ implies exists|
            id: Seq<char>,
        | out@[k].message@ == #[trigger] unknown_cell_message(id) && !declared_as(items, id, "cell"@) by {
            if k < o1.len() {
                assert(out@[k] == o1[k]);
            } else {
                assert(reports_unknown_cell(out@[k], symbols.cells@));
                let id = choose|id: Seq<char>|
                    !in_decls(symbols.cells@, id) && out@[k].message@ == #[trigger] unknown_cell_message(id);
                assert(!declared_as(items, id, "cell"@));
            }
        }
    }
}

/// The block kind that declares ids of kind `k`.
spec fn kind_name(k: IdKind) -> Seq<char> {
    match k {
        IdKind::Cell => "cell"@,
        IdKind::Derived => "derived"@,
        IdKind::Association => "association"@,
        IdKind::Event => "event"@,
        IdKind::PostFailure => "post_failure"@,
        IdKind::ForbiddenState => "forbidden_state"@,
        IdKind::KillTest => "kill_test"@,
    }
}

proof fn lemma_kind_name(k: IdKind)
    ensures
        (kind_name(k) == "cell"@) == (k == IdKind::Cell),
        (kind_name(k) == "derived"@) == (k == IdKind::Derived),
        (kind_name(k) == "association"@) == (k == IdKind::Association),
        (kind_name(k) == "event"@) == (k == IdKind::Event),
        (kind_name(k) == "post_failure"@) == (k == IdKind::PostFailure),
        (kind_name(k) == "forbidden_state"@) == (k == IdKind::ForbiddenState),
{
    reveal_strlit("cell");
    reveal_strlit("derived");
    reveal_strlit("association");
    reveal_strlit("event");
    reveal_strlit("post_failure");
    reveal_strlit("forbidden_state");
    reveal_strlit("kill_test");
    assert("cell"@.len() == 4);
    assert("derived"@.len() == 7);
    assert("association"@.len() == 11);
    assert("event"@.len() == 5);
    assert("post_failure"@.len() == 12);
    assert("forbidden_state"@.len() == 15);
    assert("kill_test"@.len() == 9);
}

proof fn lemma_table_step<'a>(items: Seq<BlockItem>, i: int, t0: Seq<Decl<'a>>, t1: Seq<Decl<'a>>, d: Decl<'a>, kind: Seq<char>, hit: bool)
    requires
        0 <= i,
        covers(items, i, t0, kind),
        decl_from(items, i, d),
        hit ==> kind_at(items, i) == kind && exists|p: int| 0 <= p <= t0.len() && t1 == t0.insert(p, d),
        !hit ==> kind_at(items, i) != kind && t1 == t0,
    ensures
        covers(items, i + 1, t1, kind),
{
    if hit {
        let p = choose|p: int| 0 <= p <= t0.len() && t1 == t0.insert(p, d);
        lemma_covers_insert(items, i, t0, p, d, kind);
    } else {
        lemma_covers_skip(items, i, t0, kind);
    }
}

/// The tables built from the first `n` items.
spec fn tables_cover<'a>(items: Seq<BlockItem>, n: int, t: SymbolTable<'a>) -> bool {
    &&& covers(items, n, t.cells@, "cell"@)
    &&& covers(items, n, t.derived@, "derived"@)
    &&& covers(items, n, t.associations@, "association"@)
    &&& covers(items, n, t.forbidden_states@, "forbidden_state"@)
    &&& covers(items, n, t.post_failures@, "post_failure"@)
    &&& events_cover(items, n, t.events@)
}

proof fn lemma_tables_skip<'a>(items: Seq<BlockItem>, i: int, t: SymbolTable<'a>)
    requires
        0 <= i,
        tables_cover(items, i, t),
        !first_decl_at(items, i),
    ensures
        tables_cover(items, i + 1, t),
{
    lemma_covers_skip(items, i, t.cells@, "cell"@);
    lemma_covers_skip(items, i, t.derived@, "derived"@);
    lemma_covers_skip(items, i, t.associations@, "association"@);
    lemma_covers_skip(items, i, t.forbidden_states@, "forbidden_state"@);
    lemma_covers_skip(items, i, t.post_failures@, "post_failure"@);
    lemma_events_skip(items, i, t.events@);
}

fn slot_kind(b: &BlockDecl) -> (r: Option<IdKind>)
    ensures
        r is Some <==> is_slot_kind(b.kind.name@),
        r == Some(IdKind::Cell) <==> b.kind.name@ == "cell"@,
        r matches Some(k) ==> kind_name(k) == b.kind.name@,
{
    let k = &b.kind.name;
    if is_lit(k, "cell") {
        Some(IdKind::Cell)
    } else if is_lit(k, "derived") {
        Some(IdKind::Derived)
    } else if is_lit(k, "association") {
        Some(IdKind::Association)
    } else if is_lit(k, "event") {
        Some(IdKind::Event)
    } else if is_lit(k, "post_failure") {
        Some(IdKind::PostFailure)
    } else if is_lit(k, "forbidden_state") {
        Some(IdKind::ForbiddenState)
    } else if is_lit(k, "kill_test") {
        Some(IdKind::KillTest)
    } else {
        None
    }
}

/// Push a duplicate-id error.
fn push_duplicate(out: &mut Vec<Diagnostic>, d: Diagnostic)
    requires
        d.code@ == codes::E_COH_DUPLICATE_ID@,
        d.severity == Severity::Error,
    ensures
        grew_by_coherence(old(out)@, final(out)@),
        adds_duplicate_id(old(out)@, final(out)@),
        final(out)@ == old(out)@.push(d),
{
    let ghost o = out@;
    out.push(d);
    assert(out@.subrange(0, o.len() as int) =~= o);
    assert(out@[o.len() as int] == d);
}

fn build_symbol_table<'a>(slice: &'a SliceDecl, out: &mut Vec<Diagnostic>) -> (t: SymbolTable<'a>)
    ensures
        grew_by_coherence(old(out)@, final(out)@),
        adds_duplicate_id(old(out)@, final(out)@) <==> has_duplicate_slot_id(*slice),
        adds_no_unknown_cell(old(out)@, final(out)@),
        forall|x: Seq<char>| declared_as(slice.items@, x, "cell"@) ==> #[trigger] in_decls(t.cells@, x),
        tables_cover(slice.items@, slice.items@.len() as int, t),
{
    let mut symbols = SymbolTable {
        cells: Vec::new(),
        derived: Vec::new(),
        associations: Vec::new(),
        events: Vec::new(),
        post_failures: Vec::new(),
        forbidden_states: Vec::new(),
        kill_tests: Vec::new(),
        by_name: Vec::new(),
    };
    let items = &slice.items;
    let ghost o0 = out@;
    let mut i: usize = 0;
    assert(out@.subrange(0, out@.len() as int) =~= out@);
    while i < items.len()
        invariant
            i <= items@.len(),
            o0 == old(out)@,
            grew_by_coherence(o0, out@),
            adds_duplicate_id(o0, out@) <==> duplicate_within(items@, i as int),
            adds_no_unknown_cell(o0, out@),
            forall|x: Seq<char>|
                #![trigger in_by_name(symbols.by_name@, x)]
                #![trigger declared_before(items@, i as int, x)]
                in_by_name(symbols.by_name@, x) <==> declared_before(items@, i as int, x),
            forall|x: Seq<char>| declared_as_within(items@, i as int, x, "cell"@) ==> #[trigger] in_decls(symbols.cells@, x),
            covers(items@, i as int, symbols.cells@, "cell"@),
            covers(items@, i as int, symbols.derived@, "derived"@),
            covers(items@, i as int, symbols.associations@, "association"@),
            covers(items@, i as int, symbols.forbidden_states@, "forbidden_state"@),
            covers(items@, i as int, symbols.post_failures@, "post_failure"@),
            events_cover(items@, i as int, symbols.events@),
        decreases items@.len() - i,
    {
        let ghost before = out@;
        let ghost names0 = symbols.by_name@;
        let ghost cells0 = symbols.cells@;
        proof {
            lemma_code_letters();
        }
        let ghost it = items@[i as int];
        proof {
            lemma_grew_refl(before);
            lemma_checks_coherence(before, before);
        }
        match &items[i] {
            BlockItem::Block(block) => {
                match slot_kind(block) {
                    Some(kind) => {
                        match block_name_ident(block) {
                            Some(name_ident) => {
                                let id = name_ident.name.as_str();
                                let span = name_ident.span;
                                assert(slot_id(it) == Some(id@));
                                match symbols.first_kind(id) {
                                    Some(prior) => {
                                        let msg = cat5("id `", id, "` is already declared as a ", prior.label(), " in this slice");
                                        let d = Diagnostic::error(codes::E_COH_DUPLICATE_ID, span, msg).with_hint(
                                            owned("each top-level slot ID must be unique within a slice"),
                                        );
                                        push_duplicate(out, d);
                                        proof {
                                            lemma_no_unknown_trans(o0, before, out@);
                                            assert(declared_before(items@, i as int, id@));
                                            lemma_tables_skip(items@, i as int, symbols);
                                            let j = choose|j: int| 0 <= j < i && #[trigger] slot_id(items@[j]) == Some(id@);
                                            assert(duplicate_within(items@, i + 1)) by {
                                                assert(slot_id(items@[j]) is Some && slot_id(items@[j]) == slot_id(items@[i as int]));
                                            }
                                            lemma_coh_trans(o0, before, out@);
                                        }
                                    },
                                    None => {
                                        symbols.by_name.push((id, kind));
                                        let decl = Decl { id, span, kind, block };
                                        let ghost gd = decl;
                                        let ghost c0 = symbols.cells@;
                                        let ghost d0 = symbols.derived@;
                                        let ghost a0 = symbols.associations@;
                                        let ghost f0 = symbols.forbidden_states@;
                                        let ghost p0 = symbols.post_failures@;
                                        let ghost e0 = symbols.events@;
                                        proof {
                                            assert(!declared_before(items@, i as int, id@));
                                            assert(decl_from(items@, i as int, gd));
                                            assert(kind_at(items@, i as int) == kind_name(kind));
                                            lemma_kind_name(kind);
                                        }
                                        match kind {
                                            IdKind::Cell => insert_decl(&mut symbols.cells, decl),
                                            IdKind::Derived => insert_decl(&mut symbols.derived, decl),
                                            IdKind::Association => insert_decl(&mut symbols.associations, decl),
                                            IdKind::Event => {
                                                let steps = collect_event_steps(block, id, out);
                                                let entry = EventEntry { decl, steps };
                                                let ghost ge = entry;
                                                insert_event(&mut symbols.events, entry);
                                                proof {
                                                    let p = choose|p: int| 0 <= p <= e0.len() && symbols.events@ == e0.insert(p, ge);
                                                    lemma_events_insert(items@, i as int, e0, p, ge);
                                                }
                                            },
                                            IdKind::PostFailure => insert_decl(&mut symbols.post_failures, decl),
                                            IdKind::ForbiddenState => insert_decl(&mut symbols.forbidden_states, decl),
                                            IdKind::KillTest => insert_decl(&mut symbols.kill_tests, decl),
                                        }
                                        proof {
                                            lemma_table_step(items@, i as int, c0, symbols.cells@, gd, "cell"@, kind == IdKind::Cell);
                                            lemma_table_step(items@, i as int, d0, symbols.derived@, gd, "derived"@, kind == IdKind::Derived);
                                            lemma_table_step(items@, i as int, a0, symbols.associations@, gd, "association"@, kind == IdKind::Association);
                                            lemma_table_step(items@, i as int, f0, symbols.forbidden_states@, gd, "forbidden_state"@, kind == IdKind::ForbiddenState);
                                            lemma_table_step(items@, i as int, p0, symbols.post_failures@, gd, "post_failure"@, kind == IdKind::PostFailure);
                                            if kind != IdKind::Event {
                                                lemma_events_skip(items@, i as int, e0);
                                            }
                                            lemma_no_unknown_trans(o0, before, out@);
                                            lemma_checks_coherence(before, out@);
                                            lemma_coh_trans(o0, before, out@);
                                            assert(!declared_before(items@, i as int, id@));
                                            assert(duplicate_within(items@, i + 1) == duplicate_within(items@, i as int)) by {
                                                if duplicate_within(items@, i + 1) {
                                                    let (j, k) = choose|j: int, k: int|
                                                        0 <= j < k < i + 1 && (#[trigger] slot_id(items@[j])) is Some && slot_id(items@[j])
                                                            == #[trigger] slot_id(items@[k]);
                                                    if k == i {
                                                        assert(slot_id(items@[j]) == Some(id@));
                                                    }
                                                }
                                            }
                                            assert forall|x: Seq<char>|
                                                #![trigger in_by_name(symbols.by_name@, x)]
                                                #![trigger declared_before(items@, i + 1, x)]
                                                in_by_name(symbols.by_name@, x) <==> declared_before(items@, i + 1, x) by {
                                                if in_by_name(symbols.by_name@, x) {
                                                    let q = choose|q: int| 0 <= q < symbols.by_name@.len() && (#[trigger] symbols.by_name@[q]).0@ == x;
                                                    if q < names0.len() {
                                                        assert(symbols.by_name@[q] == names0[q]);
                                                        assert(in_by_name(names0, x));
                                                    } else {
                                                        assert(slot_id(items@[i as int]) == Some(x));
                                                    }
                                                }
                                                if declared_before(items@, i + 1, x) {
                                                    let j = choose|j: int| 0 <= j < i + 1 && #[trigger] slot_id(items@[j]) == Some(x);
                                                    if j < i {
                                                        assert(declared_before(items@, i as int, x));
                                                        let q = choose|q: int| 0 <= q < names0.len() && (#[trigger] names0[q]).0@ == x;
                                                        assert(symbols.by_name@[q] == names0[q]);
                                                    } else {
                                                        assert(symbols.by_name@[names0.len() as int].0@ == x);
                                                    }
                                                }
                                            }
                                        }
                                    },
                                }
                            },
                            None => {
                                assert(slot_id(it) is None);
                            },
                        }
                    },
                    None => {
                        assert(slot_id(it) is None);
                    },
                }
            },
            _ => {
                assert(slot_id(it) is None);
            },
        }
        proof {
            if slot_id(it) is None {
                lemma_tables_skip(items@, i as int, symbols);
                assert(out@.subrange(0, before.len() as int) =~= before);
                lemma_no_unknown_trans(o0, before, out@);
                lemma_coh_trans(o0, before, out@);
                assert(duplicate_within(items@, i + 1) == duplicate_within(items@, i as int)) by {
                    if duplicate_within(items@, i + 1) {
                        let (j, k) = choose|j: int, k: int|
                            0 <= j < k < i + 1 && (#[trigger] slot_id(items@[j])) is Some && slot_id(items@[j]) == #[trigger] slot_id(
                                items@[k],
                            );
                        assert(k < i);
                    }
                }
                assert forall|x: Seq<char>|
                    #![trigger in_by_name(symbols.by_name@, x)]
                    #![trigger declared_before(items@, i + 1, x)]
                    in_by_name(symbols.by_name@, x) <==> declared_before(items@, i + 1, x) by {
                    if declared_before(items@, i + 1, x) {
                        let j = choose|j: int| 0 <= j < i + 1 && #[trigger] slot_id(items@[j]) == Some(x);
                        assert(j < i);
                        assert(declared_before(items@, i as int, x));
                    }
                    if declared_before(items@, i as int, x) {
                        let j = choose|j: int| 0 <= j < i && #[trigger] slot_id(items@[j]) == Some(x);
                        assert(declared_before(items@, i + 1, x));
                    }
                }
            }
        }
        i = i + 1;
    }
    symbols
}

/// Step ids of an event, sorted, reporting repeated ids (the first wins).
fn collect_event_steps<'a>(block: &'a BlockDecl, id: &str, out: &mut Vec<Diagnostic>) -> (r: Vec<(&'a str, &'a BlockDecl)>)
    ensures
        grew_by_checks(old(out)@, final(out)@),
        steps_cover(block.items@, block.items@.len() as int, r@),
{
    let mut steps: Vec<(&'a str, &'a BlockDecl)> = Vec::new();
    let items = &block.items;
    let ghost its = items@;
    let mut i: usize = 0;
    assert(out@.subrange(0, out@.len() as int) =~= out@);
    while i < items.len()
        invariant
            i <= its.len(),
            its == block.items@,
            items@ == its,
            grew_by_checks(old(out)@, out@),
            steps_cover(its, i as int, steps@),
            forall|x: Seq<char>|
                #![trigger step_before(its, i as int, x)]
                (exists|k: int| 0 <= k < steps@.len() && (#[trigger] steps@[k]).0@ == x) <==> step_before(its, i as int, x),
        decreases its.len() - i,
    {
        let ghost before = out@;
        let ghost st0 = steps@;
        let ghost it = its[i as int];
        proof { lemma_grew_refl(before); }
        match &items[i] {
            BlockItem::Block(step_block) => {
                if kind_is(step_block, "step") {
                    match block_name_ident(step_block) {
                        Some(step_name) => {
                            assert(its[i as int] == BlockItem::Block(*step_block));
                            assert(step_block.kind.name@ == "step"@);
                            assert(spec_block_name_ident(*step_block) == Some(*step_name));
                            assert(step_id(it) == Some(step_name.name@));
                            if find_step(&steps, step_name.name.as_str()).is_some() {
                                let msg = cat5("step `", step_name.name.as_str(), "` is declared twice in event `", id, "`");
                                push(out, Diagnostic::error(codes::E_COH_DUPLICATE_STEP_ID, step_name.span, msg).with_hint(
                                    owned("step IDs must be unique within their event"),
                                ));
                                proof {
                                    assert(step_before(its, i as int, step_name.name@));
                                    assert(!first_step_at(its, i as int));
                                    lemma_steps_skip(its, i as int, steps@);
                                    assert forall|x: Seq<char>|
                                        #![trigger step_before(its, i + 1, x)]
                                        (exists|k: int| 0 <= k < steps@.len() && (#[trigger] steps@[k]).0@ == x) <==> step_before(its, i + 1, x) by {
                                        if step_before(its, i + 1, x) {
                                            let m = choose|m: int| 0 <= m < i + 1 && #[trigger] step_id(its[m]) == Some(x);
                                            if m < i {
                                                assert(step_before(its, i as int, x));
                                            } else {
                                                assert(step_before(its, i as int, x));
                                            }
                                        }
                                        if step_before(its, i as int, x) {
                                            let m = choose|m: int| 0 <= m < i && #[trigger] step_id(its[m]) == Some(x);
                                            assert(step_before(its, i + 1, x));
                                        }
                                    }
                                }
                            } else {
                                let mut ids: Vec<&str> = Vec::new();
                                let mut k: usize = 0;
                                while k < steps.len()
                                    invariant
                                        k <= steps@.len(),
                                        ids@.len() == k,
                                    decreases steps@.len() - k,
                                {
                                    ids.push(steps[k].0);
                                    k = k + 1;
                                }
                                let p = sorted_slot(&ids, step_name.name.as_str());
                                let entry = (step_name.name.as_str(), step_block);
                                steps.insert(p, entry);
                                proof {
                                    assert(!step_before(its, i as int, step_name.name@));
                                    assert(first_step_at(its, i as int));
                                    assert(step_from(its, i as int, entry));
                                    lemma_steps_insert(its, i as int, st0, p as int, entry);
                                    assert(steps@ == st0.insert(p as int, entry));
                                    assert forall|x: Seq<char>|
                                        #![trigger step_before(its, i + 1, x)]
                                        (exists|k: int| 0 <= k < steps@.len() && (#[trigger] steps@[k]).0@ == x) <==> step_before(its, i + 1, x) by {
                                        if exists|k: int| 0 <= k < steps@.len() && (#[trigger] steps@[k]).0@ == x {
                                            let k = choose|k: int| 0 <= k < steps@.len() && (#[trigger] steps@[k]).0@ == x;
                                            if k < p {
                                                assert(steps@[k] == st0[k]);
                                                assert(step_before(its, i as int, x));
                                                let m = choose|m: int| 0 <= m < i && #[trigger] step_id(its[m]) == Some(x);
                                            } else if k == p {
                                                assert(step_id(its[i as int]) == Some(x));
                                            } else {
                                                assert(steps@[k] == st0[k - 1]);
                                                assert(step_before(its, i as int, x));
                                                let m = choose|m: int| 0 <= m < i && #[trigger] step_id(its[m]) == Some(x);
                                            }
                                        }
                                        if step_before(its, i + 1, x) {
                                            let m = choose|m: int| 0 <= m < i + 1 && #[trigger] step_id(its[m]) == Some(x);
                                            if m < i {
                                                assert(step_before(its, i as int, x));
                                                let k = choose|k: int| 0 <= k < st0.len() && (#[trigger] st0[k]).0@ == x;
                                                if k < p {
                                                    assert(steps@[k] == st0[k]);
                                                } else {
                                                    assert(steps@[k + 1] == st0[k]);
                                                }
                                            } else {
                                                assert(steps@[p as int] == entry);
                                            }
                                        }
                                    }
                                }
                            }
                        },
                        None => {
                            assert(step_id(it) is None);
                        },
                    }
                } else {
                    assert(step_id(it) is None);
                }
            },
            _ => {
                assert(step_id(it) is None);
            },
        }
        proof {
            lemma_grew_trans(old(out)@, before, out@);
            if step_id(it) is None {
                lemma_steps_skip(its, i as int, steps@);
                assert forall|x: Seq<char>|
                    #![trigger step_before(its, i + 1, x)]
                    (exists|k: int| 0 <= k < steps@.len() && (#[trigger] steps@[k]).0@ == x) <==> step_before(its, i + 1, x) by {
                    if step_before(its, i + 1, x) {
                        let m = choose|m: int| 0 <= m < i + 1 && #[trigger] step_id(its[m]) == Some(x);
                        assert(m < i);
                        assert(step_before(its, i as int, x));
                    }
                    if step_before(its, i as int, x) {
                        let m = choose|m: int| 0 <= m < i && #[trigger] step_id(its[m]) == Some(x);
                        assert(step_before(its, i + 1, x));
                    }
                }
            }
        }
        i = i + 1;
    }
    steps
}

// ---------------------------------------------------------------------------
// Ref resolution
// ---------------------------------------------------------------------------

fn unresolved_cell(id: &str, span: Span) -> (d: Diagnostic)
    ensures
        dv(d) == (codes::E_COH_UNRESOLVED_CELL_REF@, Severity::Error, "reference to unknown cell `"@ + id@
            + "`"@, span, Some("declare it as `cell <id> { ... }` or fix the typo"@)),
        coherence_diag(dv(d)),
{
    Diagnostic::error(codes::E_COH_UNRESOLVED_CELL_REF, span, cat3("reference to unknown cell `", id, "`"))
        .with_hint(owned("declare it as `cell <id> { ... }` or fix the typo"))
}

/// The diagnostics `new` added to `old`.
pub open spec fn added(old: Seq<Diagnostic>, new: Seq<Diagnostic>) -> Seq<DiagView> {
    dvs(new.subrange(old.len() as int, new.len() as int))
}

/// The unresolved-cell error about `id` at `span`.
pub open spec fn unknown_cell_view(id: Seq<char>, span: Span) -> DiagView {
    (
        codes::E_COH_UNRESOLVED_CELL_REF@,
        Severity::Error,
        unknown_cell_message(id),
        span,
        Some("declare it as `cell <id> { ... }` or fix the typo"@),
    )
}

/// `id` names a cell of `cells` or, where derived values are allowed, a
/// derived of `derived`.
pub open spec fn resolves_in(cells: Set<Seq<char>>, derived: Set<Seq<char>>, id: Seq<char>, allow_derived: bool) -> bool {
    cells.contains(id) || (allow_derived && derived.contains(id))
}

/// The unresolved-cell errors for the identifiers of `v` that do not
/// resolve, in order.
pub open spec fn ident_errors(
    v: Seq<Ident>,
    cells: Set<Seq<char>>,
    derived: Set<Seq<char>>,
    allow_derived: bool,
) -> Seq<DiagView>
    decreases v.len(),
{
    if v.len() == 0 {
        seq![]
    } else {
        ident_errors(v.drop_last(), cells, derived, allow_derived) + if resolves_in(
            cells,
            derived,
            v.last().name@,
            allow_derived,
        ) {
            seq![]
        } else {
            seq![unknown_cell_view(v.last().name@, v.last().span)]
        }
    }
}

/// The keys of the fields among `items`, in order.
pub open spec fn field_keys(items: Seq<BlockItem>) -> Seq<Ident>
    decreases items.len(),
{
    if items.len() == 0 {
        seq![]
    } else {
        field_keys(items.drop_last()) + match items.last() {
            BlockItem::Field(f) => seq![f.key],
            BlockItem::Block(_) => seq![],
        }
    }
}

/// The unresolved-cell errors for the cells `b` names under `key`: the keys
/// of a `key: { .. }` map, then the field names of a nested `key { .. }`
/// block.
pub open spec fn cell_key_errors(b: BlockDecl, key: Seq<char>, cells: Set<Seq<char>>) -> Seq<DiagView> {
    (match spec_field_value(b, key) {
        Some(v) => ident_errors(map_keys_of(v), cells, Set::empty(), false),
        None => seq![],
    }) + match spec_nested_block(b, key) {
        Some(nb) => ident_errors(field_keys(nb.items@), cells, Set::empty(), false),
        None => seq![],
    }
}

/// The unresolved-cell errors of `s`, in order.
pub open spec fn unknown_only(s: Seq<DiagView>) -> Seq<DiagView>
    decreases s.len(),
{
    if s.len() == 0 {
        seq![]
    } else {
        unknown_only(s.drop_last()) + if s.last().0 == codes::E_COH_UNRESOLVED_CELL_REF@ {
            seq![s.last()]
        } else {
            seq![]
        }
    }
}

/// The unresolved-cell errors for the identifiers of the field `key` of `b`.
pub open spec fn field_ident_errors(
    b: BlockDecl,
    key: Seq<char>,
    cells: Set<Seq<char>>,
    derived: Set<Seq<char>>,
    allow_derived: bool,
) -> Seq<DiagView> {
    match spec_field_value(b, key) {
        Some(v) => ident_errors(idents_of(v), cells, derived, allow_derived),
        None => seq![],
    }
}

proof fn lemma_unknown_only_add(x: Seq<DiagView>, y: Seq<DiagView>)
    ensures
        unknown_only(x + y) == unknown_only(x) + unknown_only(y),
    decreases y.len(),
{
    if y.len() == 0 {
        assert(x + y =~= x);
        assert(unknown_only(x) + unknown_only(y) =~= unknown_only(x));
    } else {
        assert((x + y).drop_last() =~= x + y.drop_last());
        lemma_unknown_only_add(x, y.drop_last());
        assert((x + y).last() == y.last());
    }
}

proof fn lemma_ident_errors_unknown(v: Seq<Ident>, cells: Set<Seq<char>>, derived: Set<Seq<char>>, allow_derived: bool)
    ensures
        unknown_only(ident_errors(v, cells, derived, allow_derived)) == ident_errors(v, cells, derived, allow_derived),
    decreases v.len(),
{
    if v.len() > 0 {
        lemma_ident_errors_unknown(v.drop_last(), cells, derived, allow_derived);
        let e = ident_errors(v.drop_last(), cells, derived, allow_derived);
        let t = if resolves_in(cells, derived, v.last().name@, allow_derived) {
            seq![]
        } else {
            seq![unknown_cell_view(v.last().name@, v.last().span)]
        };
        lemma_unknown_only_add(e, t);
        if t.len() == 1 {
            assert(t.drop_last() =~= Seq::<DiagView>::empty());
            lemma_unknown_only_add(Seq::<DiagView>::empty(), t);
            assert(seq![t.last()] =~= t);
        } else {
            assert(t =~= Seq::<DiagView>::empty());
        }
    }
}

proof fn lemma_cell_key_errors_unknown(b: BlockDecl, key: Seq<char>, cells: Set<Seq<char>>)
    ensures
        unknown_only(cell_key_errors(b, key, cells)) == cell_key_errors(b, key, cells),
{
    let x = match spec_field_value(b, key) {
        Some(v) => ident_errors(map_keys_of(v), cells, Set::empty(), false),
        None => seq![],
    };
    let y = match spec_nested_block(b, key) {
        Some(nb) => ident_errors(field_keys(nb.items@), cells, Set::empty(), false),
        None => seq![],
    };
    lemma_unknown_only_add(x, y);
    match spec_field_value(b, key) {
        Some(v) => lemma_ident_errors_unknown(map_keys_of(v), cells, Set::empty(), false),
        None => {},
    }
    match spec_nested_block(b, key) {
        Some(nb) => lemma_ident_errors_unknown(field_keys(nb.items@), cells, Set::empty(), false),
        None => {},
    }
}

proof fn lemma_field_ident_errors_unknown(
    b: BlockDecl,
    key: Seq<char>,
    cells: Set<Seq<char>>,
    derived: Set<Seq<char>>,
    allow_derived: bool,
)
    ensures
        unknown_only(field_ident_errors(b, key, cells, derived, allow_derived)) == field_ident_errors(
            b,
            key,
            cells,
            derived,
            allow_derived,
        ),
{
    match spec_field_value(b, key) {
        Some(v) => lemma_ident_errors_unknown(idents_of(v), cells, derived, allow_derived),
        None => {},
    }
}

/// `b` extends `a`.
pub open spec fn extends(a: Seq<Diagnostic>, b: Seq<Diagnostic>) -> bool {
    a.len() <= b.len() && b.subrange(0, a.len() as int) == a
}

proof fn lemma_added_split(a: Seq<Diagnostic>, b: Seq<Diagnostic>, c: Seq<Diagnostic>)
    requires
        extends(a, b),
        extends(b, c),
    ensures
        extends(a, c),
        added(a, c) == added(a, b) + added(b, c),
        unknown_only(added(a, c)) == unknown_only(added(a, b)) + unknown_only(added(b, c)),
{
    assert(c.subrange(0, a.len() as int) =~= b.subrange(0, a.len() as int));
    assert(c.subrange(a.len() as int, c.len() as int) =~= b.subrange(a.len() as int, b.len() as int) + c.subrange(
        b.len() as int,
        c.len() as int,
    ));
    crate::diagnostic::lemma_dvs_concat(b.subrange(a.len() as int, b.len() as int), c.subrange(b.len() as int, c.len() as int));
    lemma_unknown_only_add(added(a, b), added(b, c));
}

proof fn lemma_checks_no_unknown(a: Seq<Diagnostic>, b: Seq<Diagnostic>)
    requires
        grew_by_checks(a, b),
    ensures
        unknown_only(added(a, b)) == Seq::<DiagView>::empty(),
    decreases b.len() - a.len(),
{
    lemma_code_letters();
    let s = added(a, b);
    if b.len() > a.len() {
        let b1 = b.drop_last();
        assert(b1.subrange(0, a.len() as int) =~= b.subrange(0, a.len() as int));
        assert forall|i: int| a.len() <= i < b1.len() implies check_diag(dv(#[trigger] b1[i])) by {
            assert(b1[i] == b[i]);
        }
        lemma_checks_no_unknown(a, b1);
        assert(s.drop_last() =~= added(a, b1));
        assert(s.last() == dv(b[b.len() - 1]));
        assert(check_diag(dv(b[b.len() - 1])));
    } else {
        assert(s =~= Seq::<DiagView>::empty());
    }
}

/// The unresolved-cell errors for the field `key` of each table entry.
spec fn decls_field_errors<'a>(
    v: Seq<Decl<'a>>,
    key: Seq<char>,
    cells: Set<Seq<char>>,
    derived: Set<Seq<char>>,
    allow_derived: bool,
) -> Seq<DiagView>
    decreases v.len(),
{
    if v.len() == 0 {
        seq![]
    } else {
        decls_field_errors(v.drop_last(), key, cells, derived, allow_derived) + field_ident_errors(
            *v.last().block,
            key,
            cells,
            derived,
            allow_derived,
        )
    }
}

/// The unresolved-cell errors for the `mutates` of each step.
spec fn steps_errors<'a>(v: Seq<(&'a str, &'a BlockDecl)>, cells: Set<Seq<char>>, derived: Set<Seq<char>>) -> Seq<
    DiagView,
>
    decreases v.len(),
{
    if v.len() == 0 {
        seq![]
    } else {
        steps_errors(v.drop_last(), cells, derived) + field_ident_errors(*v.last().1, "mutates"@, cells, derived, false)
    }
}

/// The unresolved-cell errors for the `mutates` of each event and of its
/// steps.
spec fn events_errors<'a>(v: Seq<EventEntry<'a>>, cells: Set<Seq<char>>, derived: Set<Seq<char>>) -> Seq<DiagView>
    decreases v.len(),
{
    if v.len() == 0 {
        seq![]
    } else {
        events_errors(v.drop_last(), cells, derived) + field_ident_errors(
            *v.last().decl.block,
            "mutates"@,
            cells,
            derived,
            false,
        ) + steps_errors(v.last().steps@, cells, derived)
    }
}

/// The unresolved-cell errors for the cells each entry names under `key`.
spec fn decls_key_errors<'a>(v: Seq<Decl<'a>>, key: Seq<char>, cells: Set<Seq<char>>) -> Seq<DiagView>
    decreases v.len(),
{
    if v.len() == 0 {
        seq![]
    } else {
        decls_key_errors(v.drop_last(), key, cells) + cell_key_errors(*v.last().block, key, cells)
    }
}

/// The cells a post_failure names after a failure.
pub open spec fn post_failure_errors(b: BlockDecl, cells: Set<Seq<char>>) -> Seq<DiagView> {
    cell_key_errors(b, "cells_after"@, cells) + cell_key_errors(b, "cells_after_pre_rollback"@, cells) + cell_key_errors(
        b,
        "cells_after_rollback"@,
        cells,
    )
}

/// The unresolved-cell errors of each post_failure.
spec fn pf_errors<'a>(v: Seq<Decl<'a>>, cells: Set<Seq<char>>) -> Seq<DiagView>
    decreases v.len(),
{
    if v.len() == 0 {
        seq![]
    } else {
        pf_errors(v.drop_last(), cells) + post_failure_errors(*v.last().block, cells)
    }
}

/// The unresolved-cell errors the reference checks report for a table.
spec fn table_errors<'a>(t: SymbolTable<'a>) -> Seq<DiagView> {
    let c = id_set(t.cells@);
    let d = id_set(t.derived@);
    decls_field_errors(t.derived@, "derives_from"@, c, d, true) + decls_field_errors(t.associations@, "over"@, c, d, true)
        + events_errors(t.events@, c, d) + decls_key_errors(t.forbidden_states@, "cells"@, c) + pf_errors(
        t.post_failures@,
        c,
    )
}

/// The ids of a declaration table.
spec fn id_set<'a>(v: Seq<Decl<'a>>) -> Set<Seq<char>> {
    Set::new(|x: Seq<char>| in_decls(v, x))
}

/// Push an unresolved-cell error about an id that is not in `cells`.
fn push_unknown_cell<'a>(out: &mut Vec<Diagnostic>, id: &str, span: Span, Ghost(cells): Ghost<Seq<Decl<'a>>>)
    requires
        !in_decls(cells, id@),
    ensures
        grew_by_refs(old(out)@, final(out)@, cells),
        final(out)@ == old(out)@.push(final(out)@.last()),
        dv(final(out)@.last()) == unknown_cell_view(id@, span),
{
    let d = unresolved_cell(id, span);
    let ghost o = out@;
    out.push(d);
    proof {
        assert(out@.subrange(0, o.len() as int) =~= o);
        assert(out@[o.len() as int] == d);
        assert(d.message@ == unknown_cell_message(id@));
        assert(reports_unknown_cell(d, cells));
    }
}

/// Report each identifier of `value` that is not a declared cell (or, when
/// `allow_derived`, a declared derived).
fn check_ident_refs(symbols: &SymbolTable, value: &FieldValue, allow_derived: bool, out: &mut Vec<Diagnostic>)
    ensures
        grew_by_refs(old(out)@, final(out)@, symbols.cells@),
        added(old(out)@, final(out)@) == ident_errors(
            idents_of(*value),
            id_set(symbols.cells@),
            id_set(symbols.derived@),
            allow_derived,
        ),
{
    let ghost cs = id_set(symbols.cells@);
    let ghost ds = id_set(symbols.derived@);
    let ghost vs = idents_of(*value);
    let ids = collect_idents(value);
    let mut k: usize = 0;
    assert(out@.subrange(0, out@.len() as int) =~= out@);
    assert(vs.take(0) =~= Seq::<Ident>::empty());
    assert(added(old(out)@, out@) =~= Seq::<DiagView>::empty());
    while k < ids.len()
        invariant
            k <= ids@.len() == vs.len(),
            vs == idents_of(*value),
            cs == id_set(symbols.cells@),
            ds == id_set(symbols.derived@),
            forall|i: int| 0 <= i < ids@.len() ==> (#[trigger] ids@[i]).0@ == vs[i].name@ && ids@[i].1 == vs[i].span,
            grew_by_refs(old(out)@, out@, symbols.cells@),
            added(old(out)@, out@) == ident_errors(vs.take(k as int), cs, ds, allow_derived),
        decreases ids@.len() - k,
    {
        let (id, span) = ids[k];
        let ghost before = out@;
        proof {
            let t = vs.take(k + 1);
            assert(t.drop_last() =~= vs.take(k as int));
            assert(t.last() == vs[k as int]);
            assert(cs.contains(id@) == in_decls(symbols.cells@, id@));
            assert(ds.contains(id@) == in_decls(symbols.derived@, id@));
        }
        let ok = if allow_derived { symbols.cell_or_derived(id).is_some() } else { symbols.has_cell(id) };
        if !ok {
            push_unknown_cell(out, id, span, Ghost(symbols.cells@));
            proof {
                lemma_refs_trans(old(out)@, before, out@, symbols.cells@);
                let o = old(out)@;
                assert(out@.subrange(o.len() as int, out@.len() as int) =~= before.subrange(o.len() as int, before.len() as int).push(
                    out@.last(),
                ));
                assert(added(o, out@) =~= added(o, before).push(dv(out@.last())));
            }
        }
        k = k + 1;
    }
    proof {
        assert(vs.take(k as int) =~= vs);
    }
}

/// Report each key of a `{ k: v }` value, or each field name of an
/// anonymous block, that is not a declared cell.
fn check_cell_keys(symbols: &SymbolTable, block: &BlockDecl, key: &str, out: &mut Vec<Diagnostic>)
    ensures
        grew_by_refs(old(out)@, final(out)@, symbols.cells@),
        added(old(out)@, final(out)@) == cell_key_errors(*block, key@, id_set(symbols.cells@)),
{
    let ghost cs = id_set(symbols.cells@);
    let ghost o = old(out)@;
    assert(out@.subrange(0, out@.len() as int) =~= out@);
    assert(added(o, out@) =~= Seq::<DiagView>::empty());
    match field_value(block, key) {
        Some(value) => {
            let ghost vs = map_keys_of(*value);
            let keys = collect_map_keys(value);
            let mut k: usize = 0;
            assert(vs.take(0) =~= Seq::<Ident>::empty());
            while k < keys.len()
                invariant
                    k <= keys@.len() == vs.len(),
                    vs == map_keys_of(*value),
                    cs == id_set(symbols.cells@),
                    o == old(out)@,
                    forall|i: int| 0 <= i < keys@.len() ==> (#[trigger] keys@[i]).0@ == vs[i].name@ && keys@[i].1 == vs[i].span,
                    grew_by_refs(o, out@, symbols.cells@),
                    added(o, out@) == ident_errors(vs.take(k as int), cs, Set::empty(), false),
                decreases keys@.len() - k,
            {
                let (id, span) = keys[k];
                let ghost before = out@;
                proof {
                    let t = vs.take(k + 1);
                    assert(t.drop_last() =~= vs.take(k as int));
                    assert(t.last() == vs[k as int]);
                    assert(cs.contains(id@) == in_decls(symbols.cells@, id@));
                }
                if !symbols.has_cell(id) {
                    push_unknown_cell(out, id, span, Ghost(symbols.cells@));
                    proof {
                        lemma_refs_trans(o, before, out@, symbols.cells@);
                        assert(out@.subrange(o.len() as int, out@.len() as int) =~= before.subrange(o.len() as int, before.len() as int).push(
                            out@.last(),
                        ));
                        assert(added(o, out@) =~= added(o, before).push(dv(out@.last())));
                    }
                }
                k = k + 1;
            }
            proof {
                assert(vs.take(k as int) =~= vs);
            }
        },
        None => {},
    }
    let ghost mid = out@;
    let ghost first = added(o, out@);
    match nested_block(block, key) {
        Some(b) => {
            let ghost its = b.items@;
            let mut k: usize = 0;
            assert(its.take(0) =~= Seq::<BlockItem>::empty());
            assert(added(o, out@) =~= first + ident_errors(field_keys(its.take(0)), cs, Set::empty(), false));
            while k < b.items.len()
                invariant
                    k <= its.len(),
                    its == b.items@,
                    cs == id_set(symbols.cells@),
                    o == old(out)@,
                    mid.len() >= o.len(),
                    first == added(o, mid),
                    grew_by_refs(o, out@, symbols.cells@),
                    out@.len() >= mid.len(),
                    out@.subrange(0, mid.len() as int) == mid,
                    added(o, out@) == first + ident_errors(field_keys(its.take(k as int)), cs, Set::empty(), false),
                decreases its.len() - k,
            {
                let ghost before = out@;
                proof {
                    let t = its.take(k + 1);
                    assert(t.drop_last() =~= its.take(k as int));
                    assert(t.last() == its[k as int]);
                }
                match &b.items[k] {
                    BlockItem::Field(f) => {
                        proof {
                            let t = its.take(k + 1);
                            assert(field_keys(t) =~= field_keys(its.take(k as int)).push(f.key));
                            let fk = field_keys(its.take(k as int));
                            let fk1 = field_keys(t);
                            assert(fk1.drop_last() =~= fk);
                            assert(cs.contains(f.key.name@) == in_decls(symbols.cells@, f.key.name@));
                        }
                        if !symbols.has_cell(f.key.name.as_str()) {
                            push_unknown_cell(out, f.key.name.as_str(), f.key.span, Ghost(symbols.cells@));
                            proof {
                                lemma_refs_trans(o, before, out@, symbols.cells@);
                                assert(out@.subrange(o.len() as int, out@.len() as int) =~= before.subrange(o.len() as int, before.len() as int).push(
                                    out@.last(),
                                ));
                                assert(added(o, out@) =~= added(o, before).push(dv(out@.last())));
                            }
                        }
                    },
                    _ => {
                        proof {
                            let t = its.take(k + 1);
                            assert(field_keys(t) =~= field_keys(its.take(k as int)));
                        }
                    },
                }
                proof {
                    assert(out@.subrange(0, mid.len() as int) =~= before.subrange(0, mid.len() as int));
                }
                k = k + 1;
            }
            proof {
                assert(its.take(k as int) =~= its);
            }
        },
        None => {
            assert(added(o, out@) =~= first + Seq::<DiagView>::empty());
        },
    }
}

fn check_refs(symbols: &SymbolTable, out: &mut Vec<Diagnostic>)
    ensures
        grew_by_refs(old(out)@, final(out)@, symbols.cells@),
        unknown_only(added(old(out)@, final(out)@)) == table_errors(*symbols),
{
    let ghost c = id_set(symbols.cells@);
    let ghost d = id_set(symbols.derived@);
    let ghost o = old(out)@;
    assert(out@.subrange(0, out@.len() as int) =~= out@);
    assert(added(o, out@) =~= Seq::<DiagView>::empty());
    // derived.derives_from: cells or derived
    let mut i: usize = 0;
    assert(symbols.derived@.take(0) =~= Seq::<Decl>::empty());
    while i < symbols.derived.len()
        invariant
            i <= symbols.derived@.len(),
            o == old(out)@,
            c == id_set(symbols.cells@),
            d == id_set(symbols.derived@),
            grew_by_refs(o, out@, symbols.cells@),
            unknown_only(added(o, out@)) == decls_field_errors(symbols.derived@.take(i as int), "derives_from"@, c, d, true),
        decreases symbols.derived@.len() - i,
    {
        let ghost before = out@;
        proof { lemma_refs_refl(before, symbols.cells@); }
        let b = symbols.derived[i].block;
        match field_value(b, "derives_from") {
            Some(v) => check_ident_refs(symbols, v, true, out),
            None => {
                assert(added(before, out@) =~= Seq::<DiagView>::empty());
            },
        }
        proof {
            lemma_refs_trans(o, before, out@, symbols.cells@);
            lemma_added_split(o, before, out@);
            lemma_field_ident_errors_unknown(*b, "derives_from"@, c, d, true);
            let t = symbols.derived@.take(i + 1);
            assert(t.drop_last() =~= symbols.derived@.take(i as int));
        }
        i = i + 1;
    }
    proof {
        assert(symbols.derived@.take(i as int) =~= symbols.derived@);
    }
    let ghost e1 = unknown_only(added(o, out@));
    // association.over: cells or derived
    let mut i: usize = 0;
    assert(symbols.associations@.take(0) =~= Seq::<Decl>::empty());
    while i < symbols.associations.len()
        invariant
            i <= symbols.associations@.len(),
            o == old(out)@,
            c == id_set(symbols.cells@),
            d == id_set(symbols.derived@),
            grew_by_refs(o, out@, symbols.cells@),
            unknown_only(added(o, out@)) == e1 + decls_field_errors(symbols.associations@.take(i as int), "over"@, c, d, true),
        decreases symbols.associations@.len() - i,
    {
        let ghost before = out@;
        proof { lemma_refs_refl(before, symbols.cells@); }
        let b = symbols.associations[i].block;
        match field_value(b, "over") {
            Some(v) => check_ident_refs(symbols, v, true, out),
            None => {
                assert(added(before, out@) =~= Seq::<DiagView>::empty());
            },
        }
        proof {
            lemma_refs_trans(o, before, out@, symbols.cells@);
            lemma_added_split(o, before, out@);
            lemma_field_ident_errors_unknown(*b, "over"@, c, d, true);
            let t = symbols.associations@.take(i + 1);
            assert(t.drop_last() =~= symbols.associations@.take(i as int));
        }
        i = i + 1;
    }
    proof {
        assert(symbols.associations@.take(i as int) =~= symbols.associations@);
    }
    let ghost e2 = unknown_only(added(o, out@));
    // event.mutates and step.mutates: cells only
    let mut i: usize = 0;
    assert(symbols.events@.take(0) =~= Seq::<EventEntry>::empty());
    while i < symbols.events.len()
        invariant
            i <= symbols.events@.len(),
            o == old(out)@,
            c == id_set(symbols.cells@),
            d == id_set(symbols.derived@),
            grew_by_refs(o, out@, symbols.cells@),
            unknown_only(added(o, out@)) == e2 + events_errors(symbols.events@.take(i as int), c, d),
        decreases symbols.events@.len() - i,
    {
        let ghost before = out@;
        proof { lemma_refs_refl(before, symbols.cells@); }
        let e = &symbols.events[i];
        match field_value(e.decl.block, "mutates") {
            Some(v) => check_ident_refs(symbols, v, false, out),
            None => {
                assert(added(before, out@) =~= Seq::<DiagView>::empty());
            },
        }
        proof {
            lemma_refs_trans(o, before, out@, symbols.cells@);
            lemma_added_split(o, before, out@);
            lemma_field_ident_errors_unknown(*e.decl.block, "mutates"@, c, d, false);
        }
        let ghost mid = out@;
        let mut k: usize = 0;
        proof {
            lemma_refs_refl(mid, symbols.cells@);
        }
        assert(e.steps@.take(0) =~= Seq::<(&str, &BlockDecl)>::empty());
        assert(added(mid, out@) =~= Seq::<DiagView>::empty());
        while k < e.steps.len()
            invariant
                k <= e.steps@.len(),
                o == old(out)@,
                c == id_set(symbols.cells@),
                d == id_set(symbols.derived@),
                extends(o, mid),
                grew_by_refs(o, mid, symbols.cells@),
                grew_by_refs(mid, out@, symbols.cells@),
                unknown_only(added(mid, out@)) == steps_errors(e.steps@.take(k as int), c, d),
            decreases e.steps@.len() - k,
        {
            let ghost b2 = out@;
            proof { lemma_refs_refl(b2, symbols.cells@); }
            let sb = e.steps[k].1;
            match field_value(sb, "mutates") {
                Some(v) => check_ident_refs(symbols, v, false, out),
                None => {
                    assert(added(b2, out@) =~= Seq::<DiagView>::empty());
                },
            }
            proof {
                lemma_refs_trans(mid, b2, out@, symbols.cells@);
                lemma_added_split(mid, b2, out@);
                lemma_field_ident_errors_unknown(*sb, "mutates"@, c, d, false);
                let t = e.steps@.take(k + 1);
                assert(t.drop_last() =~= e.steps@.take(k as int));
            }
            k = k + 1;
        }
        proof {
            assert(e.steps@.take(k as int) =~= e.steps@);
            lemma_refs_trans(o, mid, out@, symbols.cells@);
            lemma_added_split(o, mid, out@);
            let t = symbols.events@.take(i + 1);
            assert(t.drop_last() =~= symbols.events@.take(i as int));
            assert(t.last() == *e);
        }
        i = i + 1;
    }
    proof {
        assert(symbols.events@.take(i as int) =~= symbols.events@);
    }
    let ghost e3 = unknown_only(added(o, out@));
    // forbidden_state.cells (field map or anonymous block)
    let mut i: usize = 0;
    assert(symbols.forbidden_states@.take(0) =~= Seq::<Decl>::empty());
    while i < symbols.forbidden_states.len()
        invariant
            i <= symbols.forbidden_states@.len(),
            o == old(out)@,
            c == id_set(symbols.cells@),
            grew_by_refs(o, out@, symbols.cells@),
            unknown_only(added(o, out@)) == e3 + decls_key_errors(symbols.forbidden_states@.take(i as int), "cells"@, c),
        decreases symbols.forbidden_states@.len() - i,
    {
        let ghost before = out@;
        proof { lemma_refs_refl(before, symbols.cells@); }
        let b = symbols.forbidden_states[i].block;
        check_cell_keys(symbols, b, "cells", out);
        proof {
            lemma_refs_trans(o, before, out@, symbols.cells@);
            lemma_added_split(o, before, out@);
            lemma_cell_key_errors_unknown(*b, "cells"@, c);
            let t = symbols.forbidden_states@.take(i + 1);
            assert(t.drop_last() =~= symbols.forbidden_states@.take(i as int));
        }
        i = i + 1;
    }
    proof {
        assert(symbols.forbidden_states@.take(i as int) =~= symbols.forbidden_states@);
    }
    let ghost e4 = unknown_only(added(o, out@));
    // post_failure cells_after variants, then event / step
    let mut i: usize = 0;
    assert(symbols.post_failures@.take(0) =~= Seq::<Decl>::empty());
    while i < symbols.post_failures.len()
        invariant
            i <= symbols.post_failures@.len(),
            o == old(out)@,
            c == id_set(symbols.cells@),
            grew_by_refs(o, out@, symbols.cells@),
            unknown_only(added(o, out@)) == e4 + pf_errors(symbols.post_failures@.take(i as int), c),
        decreases symbols.post_failures@.len() - i,
    {
        let ghost before = out@;
        proof { lemma_refs_refl(before, symbols.cells@); }
        let pf = symbols.post_failures[i].block;
        check_cell_keys(symbols, pf, "cells_after", out);
        let ghost b1 = out@;
        check_cell_keys(symbols, pf, "cells_after_pre_rollback", out);
        let ghost b2 = out@;
        check_cell_keys(symbols, pf, "cells_after_rollback", out);
        let ghost b3 = out@;
        check_post_failure_target(symbols, pf, out);
        proof {
            lemma_checks_refs(b3, out@, symbols.cells@);
            lemma_checks_no_unknown(b3, out@);
            lemma_refs_trans(before, b1, b2, symbols.cells@);
            lemma_refs_trans(before, b2, b3, symbols.cells@);
            lemma_refs_trans(before, b3, out@, symbols.cells@);
            lemma_refs_trans(o, before, out@, symbols.cells@);
            lemma_cell_key_errors_unknown(*pf, "cells_after"@, c);
            lemma_cell_key_errors_unknown(*pf, "cells_after_pre_rollback"@, c);
            lemma_cell_key_errors_unknown(*pf, "cells_after_rollback"@, c);
            lemma_added_split(before, b1, b2);
            lemma_added_split(before, b2, b3);
            lemma_added_split(before, b3, out@);
            lemma_added_split(o, before, out@);
            let t = symbols.post_failures@.take(i + 1);
            assert(t.drop_last() =~= symbols.post_failures@.take(i as int));
            assert(unknown_only(added(before, out@)) =~= post_failure_errors(*pf, c));
        }
        i = i + 1;
    }
    proof {
        assert(symbols.post_failures@.take(i as int) =~= symbols.post_failures@);
        assert(unknown_only(added(o, out@)) =~= table_errors(*symbols));
    }
}

/// `post_failure.event` must name an event, and `post_failure.step` a
/// fallible step inside it.
fn check_post_failure_target(symbols: &SymbolTable, pf: &BlockDecl, out: &mut Vec<Diagnostic>)
    ensures
        grew_by_checks(old(out)@, final(out)@),
{
    assert(out@.subrange(0, out@.len() as int) =~= out@);
    let ev_ref = match field_value(pf, "event") {
        Some(FieldValue::Ident(r)) => r,
        _ => return,
    };
    let ev_name = ev_ref.name.as_str();
    match find_event(&symbols.events, ev_name) {
        None => {
            let msg = cat3("post_failure references unknown event `", ev_name, "`");
            push(out, Diagnostic::error(codes::E_COH_UNRESOLVED_EVENT_REF, ev_ref.span, msg));
        },
        Some(ev) => {
            match field_value(pf, "step") {
                Some(FieldValue::Ident(step_ref)) => {
                    let step_name = step_ref.name.as_str();
                    match find_step(&ev.steps, step_name) {
                        None => {
                            let msg = cat5(
                                "post_failure references unknown step `",
                                step_name,
                                "` in event `",
                                ev_name,
                                "`",
                            );
                            push(out, Diagnostic::error(codes::E_COH_UNRESOLVED_STEP_REF, step_ref.span, msg));
                        },
                        Some(step) => {
                            if !field_is_true(step, "fallible") {
                                let mut msg = cat5(
                                    "post_failure targets step `",
                                    step_name,
                                    "` in event `",
                                    ev_name,
                                    "`, but that step is not declared `fallible: true`",
                                );
                                push(out, Diagnostic::error(codes::E_COH_STEP_NOT_FALLIBLE, step_ref.span, msg));
                            }
                        },
                    }
                },
                _ => {},
            }
        },
    }
}

// ---------------------------------------------------------------------------
// Bipartite kill_test / forbidden_state consistency
// ---------------------------------------------------------------------------

fn check_bipartite(symbols: &SymbolTable, out: &mut Vec<Diagnostic>)
    ensures
        grew_by_checks(old(out)@, final(out)@),
{
    assert(out@.subrange(0, out@.len() as int) =~= out@);
    let mut i: usize = 0;
    while i < symbols.forbidden_states.len()
        invariant
            i <= symbols.forbidden_states@.len(),
            grew_by_checks(old(out)@, out@),
        decreases symbols.forbidden_states@.len() - i,
    {
        let ghost before = out@;
        proof { lemma_grew_refl(before); }
        let fs = &symbols.forbidden_states[i];
        match field_value(fs.block, "kill_test") {
            Some(FieldValue::Ident(kt_ref)) => {
                let kt_name = kt_ref.name.as_str();
                if !str_eq(kt_name, "TODO") {
                    match find_decl(&symbols.kill_tests, kt_name) {
                        None => {
                            let msg = cat5("forbidden_state `", fs.id, "` references unknown kill_test `", kt_name, "`");
                            push(out, Diagnostic::error(codes::E_COH_UNRESOLVED_KILL_TEST_REF, kt_ref.span, msg).with_hint(
                                owned("declare it as `kill_test <id> { ... }` or use `kill_test: TODO`"),
                            ));
                        },
                        Some(kt) => {
                            match field_value(kt.block, "forbidden") {
                                Some(FieldValue::Ident(back)) => {
                                    if !str_eq(back.name.as_str(), fs.id) {
                                        let mut msg = cat5("kill_test `", kt_name, "` declares `forbidden: ", back.name.as_str(), "` but is referenced by forbidden_state `");
                                        msg.append(fs.id);
                                        msg.append("`");
                                        push(out, Diagnostic::error(codes::E_COH_BIPARTITE_MISMATCH, back.span, msg));
                                    }
                                },
                                _ => {},
                            }
                        },
                    }
                }
            },
            _ => {},
        }
        proof {
            lemma_grew_trans(old(out)@, before, out@);
        }
        i = i + 1;
    }
    let mut i: usize = 0;
    while i < symbols.kill_tests.len()
        invariant
            i <= symbols.kill_tests@.len(),
            grew_by_checks(old(out)@, out@),
        decreases symbols.kill_tests@.len() - i,
    {
        let ghost before = out@;
        proof { lemma_grew_refl(before); }
        let kt = &symbols.kill_tests[i];
        match field_value(kt.block, "forbidden") {
            Some(FieldValue::Ident(fs_ref)) => {
                let fs_name = fs_ref.name.as_str();
                if find_decl(&symbols.forbidden_states, fs_name).is_none() {
                    let msg = cat5("kill_test `", kt.id, "` references unknown forbidden_state `", fs_name, "`");
                    push(out, Diagnostic::error(codes::E_COH_UNRESOLVED_FORBIDDEN_REF, fs_ref.span, msg).with_hint(
                        owned("declare it as `forbidden_state <id> { ... }`"),
                    ));
                }
            },
            _ => {},
        }
        proof {
            lemma_grew_trans(old(out)@, before, out@);
        }
        i = i + 1;
    }
}

// ---------------------------------------------------------------------------
// Derivation cycle detection
// ---------------------------------------------------------------------------

/// Number of unvisited (white) nodes.
spec fn white_count(colors: Seq<u8>) -> nat
    decreases colors.len(),
{
    if colors.len() == 0 {
        0
    } else {
        white_count(colors.drop_last()) + if colors.last() == 0u8 { 1nat } else { 0nat }
    }
}

proof fn lemma_white_update(colors: Seq<u8>, i: int, c: u8)
    requires
        0 <= i < colors.len(),
        colors[i] == 0u8,
        c != 0u8,
    ensures
        white_count(colors.update(i, c)) + 1 == white_count(colors),
    decreases colors.len(),
{
    let u = colors.update(i, c);
    if i == colors.len() - 1 {
        assert(u.drop_last() =~= colors.drop_last());
    } else {
        assert(u.drop_last() =~= colors.drop_last().update(i, c));
        lemma_white_update(colors.drop_last(), i, c);
    }
}

proof fn lemma_white_update_nonwhite(colors: Seq<u8>, i: int, c: u8)
    requires
        0 <= i < colors.len(),
        colors[i] != 0u8,
        c != 0u8,
    ensures
        white_count(colors.update(i, c)) == white_count(colors),
    decreases colors.len(),
{
    let u = colors.update(i, c);
    if i == colors.len() - 1 {
        assert(u.drop_last() =~= colors.drop_last());
    } else {
        assert(u.drop_last() =~= colors.drop_last().update(i, c));
        lemma_white_update_nonwhite(colors.drop_last(), i, c);
    }
}

/// Derivation graph: derived ids (sorted) and, per derived, the ids its
/// `derives_from` names.
struct Graph<'a> {
    nodes: Vec<&'a str>,
    spans: Vec<Span>,
    adj: Vec<Vec<&'a str>>,
}

fn node_index(g: &Graph, id: &str) -> (r: Option<usize>)
    ensures
        match r {
            Some(i) => i < g.nodes@.len() && g.nodes@[i as int]@ == id@ && forall|j: int|
                0 <= j < i ==> (#[trigger] g.nodes@[j])@ != id@,
            None => forall|j: int| 0 <= j < g.nodes@.len() ==> (#[trigger] g.nodes@[j])@ != id@,
        },
{
    let mut i: usize = 0;
    while i < g.nodes.len()
        invariant
            i <= g.nodes@.len(),
            forall|j: int| 0 <= j < i ==> (#[trigger] g.nodes@[j])@ != id@,
        decreases g.nodes@.len() - i,
    {
        if str_eq(g.nodes[i], id) {
            return Some(i);
        }
        i = i + 1;
    }
    None
}

fn check_derivation_cycles(symbols: &SymbolTable, out: &mut Vec<Diagnostic>)
    ensures
        grew_by_checks(old(out)@, final(out)@),
{
    let mut g = Graph { nodes: Vec::new(), spans: Vec::new(), adj: Vec::new() };
    let mut i: usize = 0;
    while i < symbols.derived.len()
        invariant
            i <= symbols.derived@.len(),
            g.nodes@.len() == i,
            g.spans@.len() == i,
            g.adj@.len() == i,
        decreases symbols.derived@.len() - i,
    {
        let d = &symbols.derived[i];
        let mut sources: Vec<&str> = Vec::new();
        match field_value(d.block, "derives_from") {
            Some(value) => {
                let ids = collect_idents(value);
                let mut k: usize = 0;
                while k < ids.len()
                    invariant
                        k <= ids@.len(),
                    decreases ids@.len() - k,
                {
                    sources.push(ids[k].0);
                    k = k + 1;
                }
            },
            None => {},
        }
        g.nodes.push(d.id);
        g.spans.push(d.span);
        g.adj.push(sources);
        i = i + 1;
    }
    let n = g.nodes.len();
    let mut colors: Vec<u8> = Vec::new();
    let mut i: usize = 0;
    while i < n
        invariant
            i <= n,
            colors@.len() == i,
        decreases n - i,
    {
        colors.push(0);
        i = i + 1;
    }
    assert(out@.subrange(0, out@.len() as int) =~= out@);
    let mut i: usize = 0;
    while i < n
        invariant
            i <= n,
            n == g.nodes@.len(),
            n == g.spans@.len(),
            n == g.adj@.len(),
            colors@.len() == n,
            grew_by_checks(old(out)@, out@),
        decreases n - i,
    {
        if colors[i] == 0 {
            let ghost before = out@;
        proof { lemma_grew_refl(before); }
            visit(&g, i, &mut colors, out);
            proof {
                lemma_grew_trans(old(out)@, before, out@);
            }
        }
        i = i + 1;
    }
}

/// Depth-first visit from `node`: a neighbor still on the stack (gray)
/// closes a cycle, reported once per back edge found.
fn visit(g: &Graph, node: usize, colors: &mut Vec<u8>, out: &mut Vec<Diagnostic>)
    requires
        node < g.nodes@.len(),
        g.nodes@.len() == g.spans@.len(),
        g.nodes@.len() == g.adj@.len(),
        old(colors)@.len() == g.nodes@.len(),
        old(colors)@[node as int] == 0u8,
    ensures
        final(colors)@.len() == old(colors)@.len(),
        white_count(final(colors)@) < white_count(old(colors)@),
        grew_by_checks(old(out)@, final(out)@),
    decreases white_count(old(colors)@),
{
    proof {
        lemma_white_update(colors@, node as int, 1u8);
    }
    colors.set(node, 1);
    let ghost w0 = white_count(colors@);
    assert(out@.subrange(0, out@.len() as int) =~= out@);
    let neighbors = &g.adj[node];
    let mut k: usize = 0;
    while k < neighbors.len()
        invariant
            k <= neighbors@.len(),
            node < g.nodes@.len(),
            g.nodes@.len() == g.spans@.len(),
            g.nodes@.len() == g.adj@.len(),
            colors@.len() == g.nodes@.len(),
            white_count(colors@) <= w0,
            w0 < white_count(old(colors)@),
            grew_by_checks(old(out)@, out@),
        decreases neighbors@.len() - k,
    {
        let next = neighbors[k];
        match node_index(g, next) {
            Some(j) => {
                if colors[j] == 0 {
                    let ghost before = out@;
        proof { lemma_grew_refl(before); }
                    visit(g, j, colors, out);
                    proof {
                        lemma_grew_trans(old(out)@, before, out@);
                    }
                } else if colors[j] == 1 {
                    let span = g.spans[j];
                    let msg = cat5(
                        "cycle in `derives_from` graph involving `",
                        next,
                        "` (reachable from `",
                        g.nodes[node],
                        "`)",
                    );
                    let ghost before = out@;
        proof { lemma_grew_refl(before); }
                    push(out, Diagnostic::error(codes::E_COH_DERIVATION_CYCLE, span, msg));
                    proof {
                        lemma_grew_trans(old(out)@, before, out@);
                    }
                }
            },
            None => {},
        }
        k = k + 1;
    }
    proof {
        if colors@[node as int] == 0u8 {
            lemma_white_update(colors@, node as int, 2u8);
        } else {
            lemma_white_update_nonwhite(colors@, node as int, 2u8);
        }
    }
    colors.set(node, 2);
}

// ---------------------------------------------------------------------------
// Warnings
// ---------------------------------------------------------------------------

/// `name` is one of the names in `set`.
pub open spec fn has_name(set: Seq<&str>, name: Seq<char>) -> bool {
    exists|i: int| 0 <= i < set.len() && (#[trigger] set[i])@ == name
}

/// Add `name` to `set` unless it is there already.
fn add_name<'a>(set: &mut Vec<&'a str>, name: &'a str)
    ensures
        final(set)@ == if has_name(old(set)@, name@) {
            old(set)@
        } else {
            old(set)@.push(name)
        },
{
    let mut i: usize = 0;
    while i < set.len()
        invariant
            i <= set@.len(),
            forall|j: int| 0 <= j < i ==> (#[trigger] set@[j])@ != name@,
        decreases set@.len() - i,
    {
        if str_eq(set[i], name) {
            return;
        }
        i = i + 1;
    }
    set.push(name);
}

fn contains_name(set: &Vec<&str>, name: &str) -> (r: bool)
    ensures
        r == has_name(set@, name@),
{
    let mut i: usize = 0;
    while i < set.len()
        invariant
            i <= set@.len(),
            forall|j: int| 0 <= j < i ==> (#[trigger] set@[j])@ != name@,
        decreases set@.len() - i,
    {
        if str_eq(set[i], name) {
            return true;
        }
        i = i + 1;
    }
    false
}

proof fn lemma_add_name<'a>(a: Seq<&'a str>, b: Seq<&'a str>, name: &'a str)
    requires
        b == if has_name(a, name@) {
            a
        } else {
            a.push(name)
        },
    ensures
        forall|x: Seq<char>| #[trigger] has_name(b, x) <==> has_name(a, x) || x == name@,
{
    assert forall|x: Seq<char>| #[trigger] has_name(b, x) <==> has_name(a, x) || x == name@ by {
        if !has_name(a, name@) {
            if has_name(b, x) {
                let i = choose|i: int| 0 <= i < b.len() && (#[trigger] b[i])@ == x;
                if i < a.len() {
                    assert(a[i] == b[i]);
                }
            }
            if has_name(a, x) {
                let i = choose|i: int| 0 <= i < a.len() && (#[trigger] a[i])@ == x;
                assert(b[i] == a[i]);
            }
            assert(b[a.len() as int] == name);
        }
    }
}

/// The names a field value records: its identifiers and its map keys.
pub open spec fn value_names(v: FieldValue, x: Seq<char>) -> bool {
    ||| exists|i: int| 0 <= i < idents_of(v).len() && (#[trigger] idents_of(v)[i]).name@ == x
    ||| exists|i: int| 0 <= i < map_keys_of(v).len() && (#[trigger] map_keys_of(v)[i]).name@ == x
}

/// Record identifiers of a list value and the keys of a map value.
fn add_field<'a>(block: &'a BlockDecl, key: &str, set: &mut Vec<&'a str>)
    ensures
        forall|x: Seq<char>|
            #[trigger] has_name(final(set)@, x) <==> has_name(old(set)@, x) || (spec_field_value(*block, key@) matches Some(
                v,
            ) && value_names(v, x)),
{
    let ghost s0 = set@;
    match field_value(block, key) {
        Some(value) => {
            let ids = collect_idents(value);
            let mut k: usize = 0;
            while k < ids.len()
                invariant
                    k <= ids@.len() == idents_of(*value).len(),
                    forall|i: int| 0 <= i < ids@.len() ==> (#[trigger] ids@[i]).0@ == idents_of(*value)[i].name@,
                    forall|x: Seq<char>|
                        #[trigger] has_name(set@, x) <==> has_name(s0, x) || exists|i: int|
                            0 <= i < k && (#[trigger] idents_of(*value)[i]).name@ == x,
                decreases ids@.len() - k,
            {
                let ghost before = set@;
                add_name(set, ids[k].0);
                proof {
                    lemma_add_name(before, set@, ids@[k as int].0);
                    assert forall|x: Seq<char>|
                        #[trigger] has_name(set@, x) <==> has_name(s0, x) || exists|i: int|
                            0 <= i < k + 1 && (#[trigger] idents_of(*value)[i]).name@ == x by {
                        if exists|i: int| 0 <= i < k + 1 && (#[trigger] idents_of(*value)[i]).name@ == x {
                            let i = choose|i: int| 0 <= i < k + 1 && (#[trigger] idents_of(*value)[i]).name@ == x;
                            if i < k {
                                assert(exists|i2: int| 0 <= i2 < k && (#[trigger] idents_of(*value)[i2]).name@ == x);
                            }
                        }
                    }
                }
                k = k + 1;
            }
            let ghost s1 = set@;
            let keys = collect_map_keys(value);
            let mut k: usize = 0;
            while k < keys.len()
                invariant
                    k <= keys@.len() == map_keys_of(*value).len(),
                    forall|i: int| 0 <= i < keys@.len() ==> (#[trigger] keys@[i]).0@ == map_keys_of(*value)[i].name@,
                    forall|x: Seq<char>|
                        #[trigger] has_name(set@, x) <==> has_name(s1, x) || exists|i: int|
                            0 <= i < k && (#[trigger] map_keys_of(*value)[i]).name@ == x,
                decreases keys@.len() - k,
            {
                let ghost before = set@;
                add_name(set, keys[k].0);
                proof {
                    lemma_add_name(before, set@, keys@[k as int].0);
                    assert forall|x: Seq<char>|
                        #[trigger] has_name(set@, x) <==> has_name(s1, x) || exists|i: int|
                            0 <= i < k + 1 && (#[trigger] map_keys_of(*value)[i]).name@ == x by {
                        if exists|i: int| 0 <= i < k + 1 && (#[trigger] map_keys_of(*value)[i]).name@ == x {
                            let i = choose|i: int| 0 <= i < k + 1 && (#[trigger] map_keys_of(*value)[i]).name@ == x;
                            if i < k {
                                assert(exists|i2: int| 0 <= i2 < k && (#[trigger] map_keys_of(*value)[i2]).name@ == x);
                            }
                        }
                    }
                }
                k = k + 1;
            }
        },
        None => {},
    }
}

/// Record the field names of the anonymous block `kind`.
fn add_anon_block_field_names<'a>(block: &'a BlockDecl, kind: &str, set: &mut Vec<&'a str>)
    ensures
        forall|x: Seq<char>|
            #[trigger] has_name(final(set)@, x) <==> has_name(old(set)@, x) || (spec_nested_block(*block, kind@) matches Some(
                b,
            ) && exists|i: int| 0 <= i < field_keys(b.items@).len() && (#[trigger] field_keys(b.items@)[i]).name@ == x),
{
    let ghost s0 = set@;
    match nested_block(block, kind) {
        Some(b) => {
            let ghost its = b.items@;
            let mut k: usize = 0;
            assert(its.take(0) =~= Seq::<BlockItem>::empty());
            while k < b.items.len()
                invariant
                    k <= its.len(),
                    its == b.items@,
                    forall|x: Seq<char>|
                        #[trigger] has_name(set@, x) <==> has_name(s0, x) || exists|i: int|
                            0 <= i < field_keys(its.take(k as int)).len() && (#[trigger] field_keys(its.take(k as int))[i]).name@ == x,
                decreases its.len() - k,
            {
                let ghost before = set@;
                let ghost fk = field_keys(its.take(k as int));
                let ghost t = its.take(k + 1);
                assert(t.drop_last() =~= its.take(k as int));
                match &b.items[k] {
                    BlockItem::Field(f) => {
                        let nm = f.key.name.as_str();
                        add_name(set, nm);
                        proof {
                            lemma_add_name(before, set@, nm);
                            assert(field_keys(t) =~= fk.push(f.key));
                            assert forall|x: Seq<char>|
                                #[trigger] has_name(set@, x) <==> has_name(s0, x) || exists|i: int|
                                    0 <= i < field_keys(t).len() && (#[trigger] field_keys(t)[i]).name@ == x by {
                                if exists|i: int| 0 <= i < field_keys(t).len() && (#[trigger] field_keys(t)[i]).name@ == x {
                                    let i = choose|i: int| 0 <= i < field_keys(t).len() && (#[trigger] field_keys(t)[i]).name@ == x;
                                    if i < fk.len() {
                                        assert(fk[i] == field_keys(t)[i]);
                                    }
                                }
                                if exists|i: int| 0 <= i < fk.len() && (#[trigger] fk[i]).name@ == x {
                                    let i = choose|i: int| 0 <= i < fk.len() && (#[trigger] fk[i]).name@ == x;
                                    assert(fk[i] == field_keys(t)[i]);
                                }
                                if x == f.key.name@ {
                                    assert(field_keys(t)[fk.len() as int] == f.key);
                                }
                            }
                        }
                    },
                    _ => {
                        assert(field_keys(t) =~= fk);
                    },
                }
                k = k + 1;
            }
            assert(its.take(k as int) =~= its);
        },
        None => {},
    }
}

fn check_warnings<'a>(symbols: &SymbolTable<'a>, out: &mut Vec<Diagnostic>)
    ensures
        grew_by_checks(old(out)@, final(out)@),
{
    let mut referenced: Vec<&'a str> = Vec::new();
    let mut i: usize = 0;
    while i < symbols.derived.len()
        invariant
            i <= symbols.derived@.len(),
        decreases symbols.derived@.len() - i,
    {
        add_field(symbols.derived[i].block, "derives_from", &mut referenced);
        i = i + 1;
    }
    let mut i: usize = 0;
    while i < symbols.associations.len()
        invariant
            i <= symbols.associations@.len(),
        decreases symbols.associations@.len() - i,
    {
        add_field(symbols.associations[i].block, "over", &mut referenced);
        i = i + 1;
    }
    let mut i: usize = 0;
    while i < symbols.events.len()
        invariant
            i <= symbols.events@.len(),
        decreases symbols.events@.len() - i,
    {
        let e = &symbols.events[i];
        add_field(e.decl.block, "mutates", &mut referenced);
        let mut k: usize = 0;
        while k < e.steps.len()
            invariant
                k <= e.steps@.len(),
            decreases e.steps@.len() - k,
        {
            add_field(e.steps[k].1, "mutates", &mut referenced);
            k = k + 1;
        }
        i = i + 1;
    }
    let mut i: usize = 0;
    while i < symbols.forbidden_states.len()
        invariant
            i <= symbols.forbidden_states@.len(),
        decreases symbols.forbidden_states@.len() - i,
    {
        add_field(symbols.forbidden_states[i].block, "cells", &mut referenced);
        add_anon_block_field_names(symbols.forbidden_states[i].block, "cells", &mut referenced);
        i = i + 1;
    }
    let mut i: usize = 0;
    while i < symbols.post_failures.len()
        invariant
            i <= symbols.post_failures@.len(),
        decreases symbols.post_failures@.len() - i,
    {
        let pf = symbols.post_failures[i].block;
        add_field(pf, "cells_after", &mut referenced);
        add_anon_block_field_names(pf, "cells_after", &mut referenced);
        add_field(pf, "cells_after_pre_rollback", &mut referenced);
        add_anon_block_field_names(pf, "cells_after_pre_rollback", &mut referenced);
        add_field(pf, "cells_after_rollback", &mut referenced);
        add_anon_block_field_names(pf, "cells_after_rollback", &mut referenced);
        i = i + 1;
    }

    assert(out@.subrange(0, out@.len() as int) =~= out@);
    let mut i: usize = 0;
    while i < symbols.cells.len()
        invariant
            i <= symbols.cells@.len(),
            grew_by_checks(old(out)@, out@),
        decreases symbols.cells@.len() - i,
    {
        let cell = &symbols.cells[i];
        if !contains_name(&referenced, cell.id) {
            let ghost before = out@;
        proof { lemma_grew_refl(before); }
            let msg = cat3("cell `", cell.id, "` is declared but never referenced");
            push(out, Diagnostic::warning(codes::W_COH_UNUSED_CELL, cell.span, msg).with_hint(
                owned("either reference it from a derived/event/forbidden_state, or remove it"),
            ));
            proof {
                lemma_grew_trans(old(out)@, before, out@);
            }
        }
        i = i + 1;
    }

    let mut i: usize = 0;
    while i < symbols.events.len()
        invariant
            i <= symbols.events@.len(),
            grew_by_checks(old(out)@, out@),
        decreases symbols.events@.len() - i,
    {
        let e = &symbols.events[i];
        match field_value(e.decl.block, "mutates") {
            Some(FieldValue::List { items, .. }) => {
                if items.len() == 0 {
                    let ghost before = out@;
        proof { lemma_grew_refl(before); }
                    let msg = cat3("event `", e.decl.id, "` declares an empty `mutates: []` list");
                    push(out, Diagnostic::warning(codes::W_COH_EVENT_EMPTY_MUTATES, e.decl.span, msg));
                    proof {
                        lemma_grew_trans(old(out)@, before, out@);
                    }
                }
            },
            _ => {},
        }
        i = i + 1;
    }

    let mut i: usize = 0;
    while i < symbols.forbidden_states.len()
        invariant
            i <= symbols.forbidden_states@.len(),
            grew_by_checks(old(out)@, out@),
        decreases symbols.forbidden_states@.len() - i,
    {
        let fs = &symbols.forbidden_states[i];
        let structurally = match field_value(fs.block, "reachability") {
            Some(FieldValue::Ident(r)) => is_lit(&r.name, "structurally_unreachable"),
            _ => false,
        };
        if structurally {
            match field_value(fs.block, "kill_test") {
                Some(FieldValue::Ident(kt_ref)) => {
                    match find_decl(&symbols.kill_tests, kt_ref.name.as_str()) {
                        Some(kt) => {
                            match field_value(kt.block, "kind") {
                                Some(FieldValue::Ident(kind)) => {
                                    if is_lit(&kind.name, "behavioural") {
                                        let ghost before = out@;
        proof { lemma_grew_refl(before); }
                                        let mut msg = cat5("kill_test `", kt.id, "` is `kind: behavioural` for forbidden_state `", fs.id, "` whose `reachability: structurally_unreachable` — consider `kind: type_shape` instead");
                                        push(out, Diagnostic::warning(codes::W_COH_REDUNDANT_KILL_TEST, kind.span, msg).with_hint(
                                            owned("type-shape kill-tests assert the structural property that makes the state unreachable"),
                                        ));
                                        proof {
                                            lemma_grew_trans(old(out)@, before, out@);
                                        }
                                    }
                                },
                                _ => {},
                            }
                        },
                        None => {},
                    }
                },
                _ => {},
            }
        }
        i = i + 1;
    }
}

} // verus!
