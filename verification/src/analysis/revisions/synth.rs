//! Synthesizing the next inline revision from an edited source: diff the
//! replayed projection against the current one into semantic ops, render
//! the new `revision N` entries into the source, and check that the
//! rewritten source replays.

use vstd::prelude::*;

use crate::analysis::nav::kind_is;
use crate::analysis::render_text::{trim_text, trim_ws};
use crate::analysis::revisions::chain::{TerminalCheck, collect_inline_revisions, seg_view, validate_inline_revision_chain};
use crate::analysis::revisions::replay::{
    block_name_display, child_names, child_order, empty_projection_for_file, in_names, replay_revisions, same_names, spec_display_name,
    spec_empty_projection,
};
use crate::analysis::revisions::{
    BlockPathSegment, InlineRevision, OpView, PATCH_FORMAT_VERSION, ProjectionSummary, REVISION_MANIFEST_VERSION,
    RevisionAppendReport, RevisionSummary, RevisionSynthesis, RevisionSynthesisError, SemanticPatchOp,
    canonical_source_projection, collect_projection, line_count, push_item, quote_string, source_sha256, spec_quote_string,
    op_view, ops_view, path_view, spec_canonical_projection, spec_value_to_string, spec_render_item, spec_source_sha256, strings_view,
    value_to_string, zero_projection,
};
use crate::ast::{BlockDecl, BlockItem, Field, File, Import, SliceDecl};
use crate::diagnostic::codes;
use crate::diagnostic::{Diagnostic, Severity};
use crate::parser;
use crate::span::Span;
use crate::text::{cat, cat3, decimal_text, i64_text, int_text, is_lit, owned, str_eq, str_lt, u64_text};

use vstd::string::StringSliceAdditionalSpecFns;

verus! {

fn has_error(ds: &Vec<Diagnostic>) -> (r: bool)
    ensures
        r == exists|i: int| 0 <= i < ds@.len() && (#[trigger] ds@[i]).severity == Severity::Error,
{
    let mut i: usize = 0;
    while i < ds.len()
        invariant
            i <= ds@.len(),
            forall|j: int| 0 <= j < i ==> (#[trigger] ds@[j]).severity != Severity::Error,
        decreases ds@.len() - i,
    {
        if ds[i].severity == Severity::Error {
            return true;
        }
        i = i + 1;
    }
    false
}

fn synthesis_error(message: &str, diagnostics: Vec<Diagnostic>) -> (e: RevisionSynthesisError)
    ensures
        e.message@ == message@,
        e.diagnostics@ == diagnostics@,
{
    RevisionSynthesisError { message: owned(message), diagnostics }
}

fn diff_vocab_error(span: Span, message: &str) -> (e: RevisionSynthesisError) {
    let d = Diagnostic::error(codes::E_REV_DIFF_VOCABULARY_HOLE, span, owned(message)).with_hint(
        owned("add a semantic patch op variant before appending this revision"),
    );
    RevisionSynthesisError { message: owned("semantic diff vocabulary hole"), diagnostics: vec![d] }
}

// ---------------------------------------------------------------------------
// Sorted maps keyed by strings
// ---------------------------------------------------------------------------

/// What the map `m` holds for the key `(k1, k2)`: its first entry with
/// that key.
pub open spec fn map_get<V>(m: Seq<(String, String, V)>, k1: Seq<char>, k2: Seq<char>) -> Option<V>
    decreases m.len(),
{
    if m.len() == 0 {
        None
    } else {
        match map_get(m.drop_last(), k1, k2) {
            Some(v) => Some(v),
            None => if m.last().0@ == k1 && m.last().1@ == k2 {
                Some(m.last().2)
            } else {
                None
            },
        }
    }
}

/// The first entry of `m` with key `(k1, k2)` is at `i`.
pub open spec fn first_key_at<V>(m: Seq<(String, String, V)>, k1: Seq<char>, k2: Seq<char>, i: int) -> bool {
    &&& 0 <= i < m.len()
    &&& m[i].0@ == k1 && m[i].1@ == k2
    &&& forall|j: int| 0 <= j < i ==> !((#[trigger] m[j]).0@ == k1 && m[j].1@ == k2)
}

proof fn lemma_map_get<V>(m: Seq<(String, String, V)>, k1: Seq<char>, k2: Seq<char>)
    ensures
        match map_get(m, k1, k2) {
            Some(v) => exists|i: int| first_key_at(m, k1, k2, i) && m[i].2 == v,
            None => forall|j: int| 0 <= j < m.len() ==> !((#[trigger] m[j]).0@ == k1 && m[j].1@ == k2),
        },
    decreases m.len(),
{
    if m.len() > 0 {
        let w = m.drop_last();
        lemma_map_get(w, k1, k2);
        match map_get(w, k1, k2) {
            Some(v) => {
                let i = choose|i: int| first_key_at(w, k1, k2, i) && w[i].2 == v;
                assert(m[i] == w[i]);
                assert forall|j: int| 0 <= j < i implies !((#[trigger] m[j]).0@ == k1 && m[j].1@ == k2) by {
                    assert(m[j] == w[j]);
                }
                assert(first_key_at(m, k1, k2, i));
            },
            None => {
                assert forall|j: int| 0 <= j < w.len() implies !((#[trigger] m[j]).0@ == k1 && m[j].1@ == k2) by {
                    assert(m[j] == w[j]);
                }
                if m.last().0@ == k1 && m.last().1@ == k2 {
                    assert(first_key_at(m, k1, k2, m.len() - 1));
                }
            },
        }
    }
}

proof fn lemma_map_get_first<V>(m: Seq<(String, String, V)>, k1: Seq<char>, k2: Seq<char>, i: int)
    requires
        first_key_at(m, k1, k2, i),
    ensures
        map_get(m, k1, k2) == Some(m[i].2),
{
    lemma_map_get(m, k1, k2);
    match map_get(m, k1, k2) {
        Some(v) => {
            let k = choose|k: int| first_key_at(m, k1, k2, k) && m[k].2 == v;
            if k < i {
                assert(!(m[k].0@ == k1 && m[k].1@ == k2));
            } else if i < k {
                assert(!(m[i].0@ == k1 && m[i].1@ == k2));
            }
        },
        None => {
            assert(!(m[i].0@ == k1 && m[i].1@ == k2));
        },
    }
}

proof fn lemma_map_get_none<V>(m: Seq<(String, String, V)>, k1: Seq<char>, k2: Seq<char>)
    requires
        forall|j: int| 0 <= j < m.len() ==> !((#[trigger] m[j]).0@ == k1 && m[j].1@ == k2),
    ensures
        map_get(m, k1, k2) is None,
{
    lemma_map_get(m, k1, k2);
    if map_get(m, k1, k2) is Some {
        let v = map_get(m, k1, k2)->0;
        let k = choose|k: int| first_key_at(m, k1, k2, k) && m[k].2 == v;
        assert(m[k].0@ == k1 && m[k].1@ == k2);
    }
}

/// `m1` is `m0` with `(k1, k2)` mapped to `v` and every other key kept.
pub open spec fn map_set<V>(m0: Seq<(String, String, V)>, m1: Seq<(String, String, V)>, k1: Seq<char>, k2: Seq<char>, v: V) -> bool {
    forall|x: Seq<char>, y: Seq<char>|
        #[trigger] map_get(m1, x, y) == if x == k1 && y == k2 {
            Some(v)
        } else {
            map_get(m0, x, y)
        }
}

/// `(a1, a2)` sorts before `(b1, b2)`.
fn pair_lt(a1: &str, a2: &str, b1: &str, b2: &str) -> (r: bool) {
    str_lt(a1, b1) || (str_eq(a1, b1) && str_lt(a2, b2))
}

/// Insert `(k1, k2) -> v` into a map sorted by key; a later entry for the
/// same key replaces the earlier one.
/// No two entries of `m` share a key.
pub open spec fn keys_unique<V>(m: Seq<(String, String, V)>) -> bool {
    forall|i: int, j: int|
        0 <= i < j < m.len() ==> !((#[trigger] m[i]).0@ == (#[trigger] m[j]).0@ && m[i].1@ == m[j].1@)
}

fn sorted_insert<'a, V>(m: &mut Vec<(String, String, V)>, k1: String, k2: String, v: V)
    ensures
        map_set(old(m)@, final(m)@, k1@, k2@, v),
        keys_unique(old(m)@) ==> keys_unique(final(m)@),
{
    let ghost m0 = m@;
    let ghost gk1 = k1@;
    let ghost gk2 = k2@;
    let ghost gv = v;
    let mut i: usize = 0;
    while i < m.len()
        invariant
            i <= m@.len(),
            m@ == m0,
            m0 == old(m)@,
            k1@ == gk1 && k2@ == gk2 && v == gv,
            forall|j: int| 0 <= j < i ==> !((#[trigger] m0[j]).0@ == gk1 && m0[j].1@ == gk2),
        decreases m@.len() - i,
    {
        if str_eq(m[i].0.as_str(), k1.as_str()) && str_eq(m[i].1.as_str(), k2.as_str()) {
            m.set(i, (k1, k2, v));
            proof {
                let m1 = m@;
                assert forall|x: Seq<char>, y: Seq<char>|
                    #[trigger] map_get(m1, x, y) == if x == gk1 && y == gk2 {
                        Some(gv)
                    } else {
                        map_get(m0, x, y)
                    } by {
                    lemma_map_get(m0, x, y);
                    if x == gk1 && y == gk2 {
                        assert(first_key_at(m1, x, y, i as int));
                        lemma_map_get_first(m1, x, y, i as int);
                    } else {
                        match map_get(m0, x, y) {
                            Some(w) => {
                                let k = choose|k: int| first_key_at(m0, x, y, k) && m0[k].2 == w;
                                assert(k != i);
                                assert(m1[k] == m0[k]);
                                assert forall|j: int| 0 <= j < k implies !((#[trigger] m1[j]).0@ == x && m1[j].1@ == y) by {
                                    if j != i {
                                        assert(m1[j] == m0[j]);
                                    }
                                }
                                lemma_map_get_first(m1, x, y, k);
                            },
                            None => {
                                assert forall|j: int| 0 <= j < m1.len() implies !((#[trigger] m1[j]).0@ == x && m1[j].1@ == y) by {
                                    if j != i {
                                        assert(m1[j] == m0[j]);
                                    }
                                }
                                lemma_map_get_none(m1, x, y);
                            },
                        }
                    }
                }
                if keys_unique(m0) {
                    assert forall|p: int, q: int| 0 <= p < q < m1.len() implies !((#[trigger] m1[p]).0@ == (#[trigger] m1[q]).0@
                        && m1[p].1@ == m1[q].1@) by {
                        if p != i {
                            assert(m1[p] == m0[p]);
                        }
                        if q != i {
                            assert(m1[q] == m0[q]);
                        }
                        assert(m0[p].0@ != m0[q].0@ || m0[p].1@ != m0[q].1@);
                    }
                }
            }
            return;
        }
        i = i + 1;
    }
    // No entry has the key: insert it where it keeps the entries sorted.
    let mut p: usize = 0;
    while p < m.len() && !pair_lt(k1.as_str(), k2.as_str(), m[p].0.as_str(), m[p].1.as_str())
        invariant
            p <= m@.len(),
            m@ == m0,
            m0 == old(m)@,
            k1@ == gk1 && k2@ == gk2 && v == gv,
            forall|j: int| 0 <= j < m0.len() ==> !((#[trigger] m0[j]).0@ == gk1 && m0[j].1@ == gk2),
        decreases m@.len() - p,
    {
        p = p + 1;
    }
    m.insert(p, (k1, k2, v));
    proof {
        lemma_insert_map(m0, m@, p as int, gk1, gk2, gv);
        let m1 = m@;
        if keys_unique(m0) {
            assert forall|a: int, b: int| 0 <= a < b < m1.len() implies !((#[trigger] m1[a]).0@ == (#[trigger] m1[b]).0@
                && m1[a].1@ == m1[b].1@) by {
                if a == p {
                    assert(m1[b] == m0[b - 1]);
                } else if b == p {
                    assert(m1[a] == m0[a]);
                } else {
                    let a0 = if a < p { a } else { a - 1 };
                    let b0 = if b < p { b } else { b - 1 };
                    assert(m1[a] == m0[a0]);
                    assert(m1[b] == m0[b0]);
                }
            }
        }
    }
}

proof fn lemma_insert_map<V>(m0: Seq<(String, String, V)>, m1: Seq<(String, String, V)>, i: int, k1: Seq<char>, k2: Seq<char>, v: V)
    requires
        0 <= i <= m0.len(),
        m1.len() == m0.len() + 1,
        forall|j: int| 0 <= j < i ==> m1[j] == m0[j],
        forall|j: int| i < j < m1.len() ==> m1[j] == m0[j - 1],
        m1[i].0@ == k1 && m1[i].1@ == k2 && m1[i].2 == v,
        forall|j: int| 0 <= j < i ==> !((#[trigger] m0[j]).0@ == k1 && m0[j].1@ == k2),
    ensures
        map_set(m0, m1, k1, k2, v),
{
    assert forall|x: Seq<char>, y: Seq<char>|
        #[trigger] map_get(m1, x, y) == if x == k1 && y == k2 {
            Some(v)
        } else {
            map_get(m0, x, y)
        } by {
        lemma_map_get(m0, x, y);
        if x == k1 && y == k2 {
            assert forall|j: int| 0 <= j < i implies !((#[trigger] m1[j]).0@ == x && m1[j].1@ == y) by {
                assert(m1[j] == m0[j]);
            }
            lemma_map_get_first(m1, x, y, i);
        } else {
            match map_get(m0, x, y) {
                Some(w) => {
                    let k = choose|k: int| first_key_at(m0, x, y, k) && m0[k].2 == w;
                    let k1i = if k < i { k } else { k + 1 };
                    assert(m1[k1i] == m0[k]);
                    assert forall|j: int| 0 <= j < k1i implies !((#[trigger] m1[j]).0@ == x && m1[j].1@ == y) by {
                        if j < i {
                            assert(m1[j] == m0[j]);
                        } else if j > i {
                            assert(m1[j] == m0[j - 1]);
                        }
                    }
                    lemma_map_get_first(m1, x, y, k1i);
                },
                None => {
                    assert forall|j: int| 0 <= j < m1.len() implies !((#[trigger] m1[j]).0@ == x && m1[j].1@ == y) by {
                        if j < i {
                            assert(m1[j] == m0[j]);
                        } else if j > i {
                            assert(m1[j] == m0[j - 1]);
                        }
                    }
                    lemma_map_get_none(m1, x, y);
                },
            }
        }
    }
}

fn sorted_find<'a, V>(m: &'a Vec<(String, String, V)>, k1: &str, k2: &str) -> (r: Option<&'a V>)
    ensures
        match r {
            Some(v) => map_get(m@, k1@, k2@) == Some(*v),
            None => map_get(m@, k1@, k2@) is None,
        },
{
    let mut i: usize = 0;
    while i < m.len()
        invariant
            i <= m@.len(),
            forall|j: int| 0 <= j < i ==> !((#[trigger] m@[j]).0@ == k1@ && m@[j].1@ == k2@),
        decreases m@.len() - i,
    {
        if str_eq(m[i].0.as_str(), k1) && str_eq(m[i].1.as_str(), k2) {
            proof {
                lemma_map_get_first(m@, k1@, k2@, i as int);
            }
            return Some(&m[i].2);
        }
        i = i + 1;
    }
    proof {
        lemma_map_get_none(m@, k1@, k2@);
    }
    None
}

/// The last top-level block other than `revisions` of kind `k1` named
/// `k2` among `items`.
pub open spec fn last_top_block(items: Seq<BlockItem>, k1: Seq<char>, k2: Seq<char>) -> Option<BlockDecl>
    decreases items.len(),
{
    if items.len() == 0 {
        None
    } else {
        match items.last() {
            BlockItem::Block(b) => if b.kind.name@ != "revisions"@ && b.kind.name@ == k1 && spec_display_name(b) == k2 {
                Some(b)
            } else {
                last_top_block(items.drop_last(), k1, k2)
            },
            BlockItem::Field(_) => last_top_block(items.drop_last(), k1, k2),
        }
    }
}

/// Top-level blocks other than `revisions`, by `(kind, display name)`.
fn top_level_blocks_by_key<'a>(slice: &'a SliceDecl) -> (r: Vec<(String, String, &'a BlockDecl)>)
    ensures
        keys_unique(r@),
        forall|x: Seq<char>, y: Seq<char>|
            #[trigger] map_get(r@, x, y) == match last_top_block(slice.items@, x, y) {
                Some(b) => Some(&b),
                None => None,
            },
{
    let mut m: Vec<(String, String, &'a BlockDecl)> = Vec::new();
    let mut i: usize = 0;
    let ghost its = slice.items@;
    assert forall|x: Seq<char>, y: Seq<char>| #[trigger] map_get(m@, x, y) == match last_top_block(its.take(0), x, y) {
        Some(b) => Some(&b),
        None => None,
    } by {
        assert(its.take(0) =~= Seq::<BlockItem>::empty());
    }
    while i < slice.items.len()
        invariant
            keys_unique(m@),
            i <= its.len(),
            its == slice.items@,
            forall|x: Seq<char>, y: Seq<char>|
                #[trigger] map_get(m@, x, y) == match last_top_block(its.take(i as int), x, y) {
                    Some(b) => Some(&b),
                    None => None,
                },
        decreases its.len() - i,
    {
        let ghost t = its.take(i + 1);
        assert(t.drop_last() =~= its.take(i as int));
        assert(t.last() == its[i as int]);
        match &slice.items[i] {
            BlockItem::Block(b) => {
                if !kind_is(b, "revisions") {
                    sorted_insert(&mut m, owned(b.kind.name.as_str()), block_name_display(b), b);
                }
            },
            _ => {},
        }
        i = i + 1;
    }
    assert(its.take(i as int) =~= its);
    m
}

/// The last child of `items` of kind `kind` with display name `k2`.
pub open spec fn last_child(items: Seq<BlockItem>, kind: Seq<char>, k2: Seq<char>) -> Option<BlockDecl>
    decreases items.len(),
{
    if items.len() == 0 {
        None
    } else {
        match items.last() {
            BlockItem::Block(b) => if b.kind.name@ == kind && spec_display_name(b) == k2 {
                Some(b)
            } else {
                last_child(items.drop_last(), kind, k2)
            },
            BlockItem::Field(_) => last_child(items.drop_last(), kind, k2),
        }
    }
}

/// Children of kind `kind`, by display name.
fn child_blocks_by_key<'a>(b: &'a BlockDecl, kind: &str) -> (r: Vec<(String, String, &'a BlockDecl)>)
    ensures
        keys_unique(r@),
        forall|x: Seq<char>, y: Seq<char>|
            #[trigger] map_get(r@, x, y) == if x == Seq::<char>::empty() {
                match last_child(b.items@, kind@, y) {
                    Some(c) => Some(&c),
                    None => None,
                }
            } else {
                None
            },
{
    let mut m: Vec<(String, String, &'a BlockDecl)> = Vec::new();
    let mut i: usize = 0;
    let ghost its = b.items@;
    assert(its.take(0) =~= Seq::<BlockItem>::empty());
    while i < b.items.len()
        invariant
            keys_unique(m@),
            i <= its.len(),
            its == b.items@,
            forall|x: Seq<char>, y: Seq<char>|
                #[trigger] map_get(m@, x, y) == if x == Seq::<char>::empty() {
                    match last_child(its.take(i as int), kind@, y) {
                        Some(c) => Some(&c),
                        None => None,
                    }
                } else {
                    None
                },
        decreases its.len() - i,
    {
        let ghost t = its.take(i + 1);
        assert(t.drop_last() =~= its.take(i as int));
        assert(t.last() == its[i as int]);
        match &b.items[i] {
            BlockItem::Block(c) => {
                if kind_is(c, kind) {
                    let e = String::new();
                    proof {
                        assert(e@ =~= Seq::<char>::empty());
                    }
                    sorted_insert(&mut m, e, block_name_display(c), c);
                }
            },
            _ => {},
        }
        i = i + 1;
    }
    assert(its.take(i as int) =~= its);
    m
}

/// The last field of `items` keyed `k2`.
pub open spec fn last_field(items: Seq<BlockItem>, k2: Seq<char>) -> Option<Field>
    decreases items.len(),
{
    if items.len() == 0 {
        None
    } else {
        match items.last() {
            BlockItem::Field(f) => if f.key.name@ == k2 {
                Some(f)
            } else {
                last_field(items.drop_last(), k2)
            },
            BlockItem::Block(_) => last_field(items.drop_last(), k2),
        }
    }
}

/// Fields by name.
fn fields_by_name<'a>(b: &'a BlockDecl) -> (r: Vec<(String, String, &'a Field)>)
    ensures
        keys_unique(r@),
        forall|x: Seq<char>, y: Seq<char>|
            #[trigger] map_get(r@, x, y) == if x == Seq::<char>::empty() {
                match last_field(b.items@, y) {
                    Some(f) => Some(&f),
                    None => None,
                }
            } else {
                None
            },
{
    let mut m: Vec<(String, String, &'a Field)> = Vec::new();
    let mut i: usize = 0;
    let ghost its = b.items@;
    assert(its.take(0) =~= Seq::<BlockItem>::empty());
    while i < b.items.len()
        invariant
            keys_unique(m@),
            i <= its.len(),
            its == b.items@,
            forall|x: Seq<char>, y: Seq<char>|
                #[trigger] map_get(m@, x, y) == if x == Seq::<char>::empty() {
                    match last_field(its.take(i as int), y) {
                        Some(f) => Some(&f),
                        None => None,
                    }
                } else {
                    None
                },
        decreases its.len() - i,
    {
        let ghost t = its.take(i + 1);
        assert(t.drop_last() =~= its.take(i as int));
        assert(t.last() == its[i as int]);
        match &b.items[i] {
            BlockItem::Field(f) => {
                let e = String::new();
                proof {
                    assert(e@ =~= Seq::<char>::empty());
                }
                sorted_insert(&mut m, e, owned(f.key.name.as_str()), f);
            },
            _ => {},
        }
        i = i + 1;
    }
    assert(its.take(i as int) =~= its);
    m
}

fn segment(kind: &str, name: &str) -> (s: BlockPathSegment)
    ensures
        seg_view(s) == (kind@, name@),
{
    BlockPathSegment { kind: owned(kind), name: owned(name) }
}

fn copy_path(path: &Vec<BlockPathSegment>) -> (r: Vec<BlockPathSegment>)
    ensures
        r@.map_values(|g: BlockPathSegment| seg_view(g)) == path@.map_values(|g: BlockPathSegment| seg_view(g)),
        path_view(r@) == path_view(path@),
{
    let mut out: Vec<BlockPathSegment> = Vec::new();
    let mut i: usize = 0;
    while i < path.len()
        invariant
            i <= path@.len(),
            out@.len() == i,
            out@.map_values(|g: BlockPathSegment| seg_view(g)) == path@.take(i as int).map_values(|g: BlockPathSegment| seg_view(g)),
        decreases path@.len() - i,
    {
        let ghost o = out@;
        out.push(segment(path[i].kind.as_str(), path[i].name.as_str()));
        assert(seg_view(out@[i as int]) == seg_view(path@[i as int]));
        assert forall|k: int| 0 <= k < i implies seg_view(out@[k]) == seg_view(path@[k]) by {
            assert(out@[k] == o[k]);
            assert(o.map_values(|g: BlockPathSegment| seg_view(g))[k] == path@.take(i as int).map_values(|g: BlockPathSegment| seg_view(g))[k]);
        }
        assert(out@.map_values(|g: BlockPathSegment| seg_view(g)) =~= path@.take(i + 1).map_values(|g: BlockPathSegment| seg_view(g)));
        i = i + 1;
    }
    assert(path@.take(i as int) =~= path@);
    assert(path_view(out@) =~= path_view(path@)) by {
        assert forall|k: int| 0 <= k < out@.len() implies path_view(out@)[k] == path_view(path@)[k] by {
            assert(out@.map_values(|g: BlockPathSegment| seg_view(g))[k] == path@.map_values(|g: BlockPathSegment| seg_view(g))[k]);
        }
    }
    out
}

// ---------------------------------------------------------------------------
// Diffing projections
// ---------------------------------------------------------------------------

/// An item as the projection writes it at depth zero, trimmed.
fn item_to_string(it: &BlockItem) -> (r: String)
    ensures
        r@ == trim_ws(spec_render_item(*it, 0)),
{
    let mut out = String::new();
    proof {
        assert(crate::analysis::revisions::indent(0) =~= Seq::<char>::empty());
        assert(""@ =~= Seq::<char>::empty()) by {
            reveal_strlit("");
        }
    }
    push_item(it, "", Ghost(0nat), &mut out);
    trim_text(out.as_str())
}

/// Some import of `prev` has the alias `alias`.
pub open spec fn has_alias(prev: Seq<Import>, alias: Seq<char>) -> bool {
    exists|j: int| 0 <= j < prev.len() && (#[trigger] prev[j]).alias.name@ == alias
}

/// An `add_import` op for each import of `cur` whose alias `prev` lacks,
/// in order.
pub open spec fn import_ops(prev: Seq<Import>, cur: Seq<Import>) -> Seq<OpView>
    decreases cur.len(),
{
    if cur.len() == 0 {
        seq![]
    } else {
        import_ops(prev, cur.drop_last()) + if has_alias(prev, cur.last().alias.name@) {
            seq![]
        } else {
            seq![OpView::AddImport { alias: cur.last().alias.name@, path: cur.last().path@, span: Span { start: 0, end: 0 } }]
        }
    }
}

fn diff_imports(previous: &SliceDecl, current: &SliceDecl, ops: &mut Vec<SemanticPatchOp>)
    ensures
        ops_view(final(ops)@) == ops_view(old(ops)@) + import_ops(previous.imports@, current.imports@),
{
    let ghost o0 = ops_view(ops@);
    let mut i: usize = 0;
    assert(current.imports@.take(0) =~= Seq::<Import>::empty());
    assert(ops_view(ops@) =~= o0 + import_ops(previous.imports@, current.imports@.take(0)));
    while i < current.imports.len()
        invariant
            i <= current.imports@.len(),
            o0 == ops_view(old(ops)@),
            ops_view(ops@) == o0 + import_ops(previous.imports@, current.imports@.take(i as int)),
        decreases current.imports@.len() - i,
    {
        let ghost t = current.imports@.take(i + 1);
        assert(t.drop_last() =~= current.imports@.take(i as int));
        assert(t.last() == current.imports@[i as int]);
        let alias = current.imports[i].alias.name.as_str();
        let mut known = false;
        let mut j: usize = 0;
        while j < previous.imports.len()
            invariant
                j <= previous.imports@.len(),
                known == exists|q: int| 0 <= q < j && (#[trigger] previous.imports@[q]).alias.name@ == alias@,
            decreases previous.imports@.len() - j,
        {
            if str_eq(previous.imports[j].alias.name.as_str(), alias) {
                known = true;
            }
            j = j + 1;
        }
        let ghost before = ops_view(ops@);
        if !known {
            let op = SemanticPatchOp::AddImport {
                alias: owned(alias),
                path: owned(current.imports[i].path.as_str()),
                span: Span::dummy(),
            };
            ops.push(op);
            assert(ops_view(ops@) =~= before.push(op_view(op)));
        }
        assert(ops_view(ops@) =~= o0 + import_ops(previous.imports@, t));
        i = i + 1;
    }
    assert(current.imports@.take(i as int) =~= current.imports@);
}

/// The op that the field `y` calls for between `before` and `after` at
/// `path`: its new value where it changed or appeared, its removal where it
/// went (its last occurrence in each block counting).
pub open spec fn field_change(
    path: Seq<(Seq<char>, Seq<char>)>,
    before: BlockDecl,
    after: BlockDecl,
    y: Seq<char>,
    op: OpView,
) -> bool {
    match last_field(before.items@, y) {
        Some(bf) => match last_field(after.items@, y) {
            Some(af) => spec_value_to_string(bf.value) != spec_value_to_string(af.value) && op == OpView::ModifyField {
                block_path: path,
                field_name: y,
                value: spec_value_to_string(af.value),
            },
            None => op == OpView::RemoveField { block_path: path, field_name: y },
        },
        None => match last_field(after.items@, y) {
            Some(af) => op == OpView::ModifyField { block_path: path, field_name: y, value: spec_value_to_string(af.value) },
            None => false,
        },
    }
}

/// The ops `new` added to `old`.
pub open spec fn added_ops(old: Seq<SemanticPatchOp>, new: Seq<SemanticPatchOp>) -> Seq<OpView> {
    ops_view(new).subrange(old.len() as int, new.len() as int)
}

/// An entry of a map without repeated keys is what the map gives for its key.
proof fn lemma_entry<V>(m: Seq<(String, String, V)>, q: int)
    requires
        keys_unique(m),
        0 <= q < m.len(),
    ensures
        map_get(m, m[q].0@, m[q].1@) == Some(m[q].2),
{
    assert forall|j: int| 0 <= j < q implies !((#[trigger] m[j]).0@ == m[q].0@ && m[j].1@ == m[q].1@) by {}
    lemma_map_get_first(m, m[q].0@, m[q].1@, q);
}

/// A key the map gives a value for is the key of one of its entries.
proof fn lemma_entry_of<V>(m: Seq<(String, String, V)>, x: Seq<char>, y: Seq<char>)
    requires
        map_get(m, x, y) is Some,
    ensures
        exists|q: int| 0 <= q < m.len() && m[q].0@ == x && (#[trigger] m[q]).1@ == y,
{
    lemma_map_get(m, x, y);
    let v = map_get(m, x, y)->0;
    let k = choose|k: int| first_key_at(m, x, y, k) && m[k].2 == v;
}

proof fn lemma_push_op(o: Seq<SemanticPatchOp>, a: Seq<SemanticPatchOp>, b: Seq<SemanticPatchOp>, op: SemanticPatchOp)
    requires
        a.len() >= o.len(),
        ops_view(b) == ops_view(a).push(op_view(op)),
    ensures
        b.len() == a.len() + 1,
        ops_view(b).subrange(0, o.len() as int) == ops_view(a).subrange(0, o.len() as int),
        forall|x: OpView| #[trigger] added_ops(o, b).contains(x) <==> added_ops(o, a).contains(x) || x == op_view(op),
{
    assert(ops_view(b).len() == b.len());
    assert(ops_view(a).len() == a.len());
    assert(added_ops(o, b) =~= added_ops(o, a).push(op_view(op)));
    assert forall|x: OpView| #[trigger] added_ops(o, b).contains(x) <==> added_ops(o, a).contains(x) || x == op_view(op) by {
        let s = added_ops(o, a);
        if added_ops(o, b).contains(x) {
            let k = choose|k: int| 0 <= k < s.push(op_view(op)).len() && s.push(op_view(op))[k] == x;
            if k < s.len() {
                assert(s[k] == x);
            }
        }
        if s.contains(x) {
            let k = choose|k: int| 0 <= k < s.len() && s[k] == x;
            assert(s.push(op_view(op))[k] == x);
        }
        if x == op_view(op) {
            assert(s.push(op_view(op))[s.len() as int] == x);
        }
    }
}

fn diff_block_fields(path: &Vec<BlockPathSegment>, before: &BlockDecl, after: &BlockDecl, ops: &mut Vec<SemanticPatchOp>)
    ensures
        final(ops)@.len() >= old(ops)@.len(),
        ops_view(final(ops)@).subrange(0, old(ops)@.len() as int) == ops_view(old(ops)@),
        forall|op: OpView|
            #[trigger] added_ops(old(ops)@, final(ops)@).contains(op) <==> exists|y: Seq<char>|
                #[trigger] field_change(path_view(path@), *before, *after, y, op),
{
    let ghost pv = path_view(path@);
    let ghost o = old(ops)@;
    let before_fields = fields_by_name(before);
    let after_fields = fields_by_name(after);
    let ghost bm = before_fields@;
    let ghost am = after_fields@;
    assert(ops_view(ops@).subrange(0, o.len() as int) =~= ops_view(o));
    assert(added_ops(o, ops@) =~= Seq::<OpView>::empty());
    let mut i: usize = 0;
    while i < before_fields.len()
        invariant
            i <= bm.len(),
            bm == before_fields@,
            am == after_fields@,
            keys_unique(bm),
            keys_unique(am),
            pv == path_view(path@),
            o == old(ops)@,
            forall|x: Seq<char>, y: Seq<char>|
                #[trigger] map_get(bm, x, y) == if x == Seq::<char>::empty() {
                    match last_field(before.items@, y) {
                        Some(f) => Some(&f),
                        None => None,
                    }
                } else {
                    None
                },
            forall|x: Seq<char>, y: Seq<char>|
                #[trigger] map_get(am, x, y) == if x == Seq::<char>::empty() {
                    match last_field(after.items@, y) {
                        Some(f) => Some(&f),
                        None => None,
                    }
                } else {
                    None
                },
            ops@.len() >= o.len(),
            ops_view(ops@).subrange(0, o.len() as int) == ops_view(o),
            forall|op: OpView|
                #[trigger] added_ops(o, ops@).contains(op) <==> exists|q: int|
                    0 <= q < i && #[trigger] field_change(pv, *before, *after, bm[q].1@, op),
        decreases bm.len() - i,
    {
        let name = before_fields[i].1.as_str();
        let bf = before_fields[i].2;
        let ghost before_ops = ops@;
        proof {
            lemma_entry(bm, i as int);
            assert(bm[i as int].0@ == Seq::<char>::empty());
            assert(last_field(before.items@, name@) == Some(*bf));
        }
        match sorted_find(&after_fields, "", name) {
            Some(af) => {
                proof {
                    reveal_strlit("");
                    assert(""@ =~= Seq::<char>::empty());
                }
                proof {
                    assert(map_get(am, Seq::<char>::empty(), name@) == Some(*af));
                    assert(last_field(after.items@, name@) == Some(**af));
                    assert(bm[i as int].1@ == name@);
                }
                let bv = value_to_string(&bf.value);
                let av = value_to_string(&af.value);
                if !str_eq(bv.as_str(), av.as_str()) {
                    let op = SemanticPatchOp::ModifyField { block_path: copy_path(path), field_name: owned(name), value: av };
                    let ghost a0 = ops@;
                    ops.push(op);
                    proof {
                        assert(ops_view(ops@) =~= ops_view(a0).push(op_view(op)));
                        lemma_push_op(o, a0, ops@, op);
                        assert(op_view(op) == OpView::ModifyField {
                            block_path: pv,
                            field_name: name@,
                            value: spec_value_to_string(af.value),
                        });
                        assert forall|op2: OpView| #[trigger] field_change(pv, *before, *after, name@, op2) <==> op2 == op_view(op) by {}
                        assert forall|op2: OpView| #[trigger] added_ops(o, ops@).contains(op2) <==> (added_ops(o, before_ops).contains(op2)
                            || field_change(pv, *before, *after, name@, op2)) by {}
                    }
                } else {
                    proof {
                        assert forall|op2: OpView| !#[trigger] field_change(pv, *before, *after, name@, op2) by {}
                        assert forall|op2: OpView| #[trigger] added_ops(o, ops@).contains(op2) <==> (added_ops(o, before_ops).contains(op2)
                            || field_change(pv, *before, *after, name@, op2)) by {}
                    }
                }
            },
            None => {
                proof {
                    reveal_strlit("");
                    assert(""@ =~= Seq::<char>::empty());
                }
                proof {
                    assert(map_get(am, Seq::<char>::empty(), name@) is None);
                    assert(last_field(after.items@, name@) is None);
                    assert(bm[i as int].1@ == name@);
                }
                let op = SemanticPatchOp::RemoveField { block_path: copy_path(path), field_name: owned(name) };
                let ghost a0 = ops@;
                ops.push(op);
                proof {
                    assert(ops_view(ops@) =~= ops_view(a0).push(op_view(op)));
                    lemma_push_op(o, a0, ops@, op);
                    assert(op_view(op) == OpView::RemoveField { block_path: pv, field_name: name@ });
                    assert forall|op2: OpView| #[trigger] field_change(pv, *before, *after, name@, op2) <==> op2 == op_view(op) by {}
                    assert forall|op2: OpView| #[trigger] added_ops(o, ops@).contains(op2) <==> (added_ops(o, before_ops).contains(op2)
                        || field_change(pv, *before, *after, name@, op2)) by {}
                }
            },
        }
        proof {
            assert forall|op2: OpView| #[trigger] added_ops(o, ops@).contains(op2) <==> exists|q: int|
                0 <= q < i + 1 && #[trigger] field_change(pv, *before, *after, bm[q].1@, op2) by {
                assert(added_ops(o, ops@).contains(op2) <==> (added_ops(o, before_ops).contains(op2)
                    || field_change(pv, *before, *after, name@, op2)));
                assert(added_ops(o, before_ops).contains(op2) <==> exists|q: int|
                    0 <= q < i && #[trigger] field_change(pv, *before, *after, bm[q].1@, op2));
                if field_change(pv, *before, *after, name@, op2) {
                    assert(field_change(pv, *before, *after, bm[i as int].1@, op2));
                }
                if exists|q: int| 0 <= q < i + 1 && #[trigger] field_change(pv, *before, *after, bm[q].1@, op2) {
                    let q = choose|q: int| 0 <= q < i + 1 && #[trigger] field_change(pv, *before, *after, bm[q].1@, op2);
                    if q < i {
                        assert(exists|q2: int| 0 <= q2 < i && #[trigger] field_change(pv, *before, *after, bm[q2].1@, op2));
                    }
                }
                if exists|q: int| 0 <= q < i && #[trigger] field_change(pv, *before, *after, bm[q].1@, op2) {
                    let q = choose|q: int| 0 <= q < i && #[trigger] field_change(pv, *before, *after, bm[q].1@, op2);
                    assert(0 <= q < i + 1);
                }
            }
        }
        i = i + 1;
    }
    let mut i: usize = 0;
    while i < after_fields.len()
        invariant
            i <= am.len(),
            bm == before_fields@,
            am == after_fields@,
            keys_unique(bm),
            keys_unique(am),
            pv == path_view(path@),
            o == old(ops)@,
            forall|x: Seq<char>, y: Seq<char>|
                #[trigger] map_get(bm, x, y) == if x == Seq::<char>::empty() {
                    match last_field(before.items@, y) {
                        Some(f) => Some(&f),
                        None => None,
                    }
                } else {
                    None
                },
            forall|x: Seq<char>, y: Seq<char>|
                #[trigger] map_get(am, x, y) == if x == Seq::<char>::empty() {
                    match last_field(after.items@, y) {
                        Some(f) => Some(&f),
                        None => None,
                    }
                } else {
                    None
                },
            ops@.len() >= o.len(),
            ops_view(ops@).subrange(0, o.len() as int) == ops_view(o),
            forall|op: OpView|
                #[trigger] added_ops(o, ops@).contains(op) <==> (exists|q: int|
                    0 <= q < bm.len() && #[trigger] field_change(pv, *before, *after, bm[q].1@, op)) || (exists|q: int|
                    0 <= q < i && last_field(before.items@, am[q].1@) is None && #[trigger] field_change(
                        pv,
                        *before,
                        *after,
                        am[q].1@,
                        op,
                    )),
        decreases am.len() - i,
    {
        let name = after_fields[i].1.as_str();
        proof {
            lemma_entry(am, i as int);
            assert(am[i as int].0@ == Seq::<char>::empty());
            reveal_strlit("");
            assert(""@ =~= Seq::<char>::empty());
        }
        let found = sorted_find(&before_fields, "", name).is_none();
        if found {
            let v = value_to_string(&after_fields[i].2.value);
            let op = SemanticPatchOp::ModifyField { block_path: copy_path(path), field_name: owned(name), value: v };
            let ghost a0 = ops@;
            ops.push(op);
            proof {
                assert(ops_view(ops@) =~= ops_view(a0).push(op_view(op)));
                lemma_push_op(o, a0, ops@, op);
                assert(field_change(pv, *before, *after, am[i as int].1@, op_view(op)));
            }
        }
        proof {
            assert forall|op2: OpView| #[trigger] added_ops(o, ops@).contains(op2) <==> (exists|q: int|
                0 <= q < bm.len() && #[trigger] field_change(pv, *before, *after, bm[q].1@, op2)) || (exists|q: int|
                0 <= q < i + 1 && last_field(before.items@, am[q].1@) is None && #[trigger] field_change(
                    pv,
                    *before,
                    *after,
                    am[q].1@,
                    op2,
                )) by {
                if exists|q: int|
                    0 <= q < i + 1 && last_field(before.items@, am[q].1@) is None && #[trigger] field_change(
                        pv,
                        *before,
                        *after,
                        am[q].1@,
                        op2,
                    ) {
                    let q = choose|q: int|
                        0 <= q < i + 1 && last_field(before.items@, am[q].1@) is None && #[trigger] field_change(
                            pv,
                            *before,
                            *after,
                            am[q].1@,
                            op2,
                        );
                    if q < i {
                        assert(exists|q2: int|
                            0 <= q2 < i && last_field(before.items@, am[q2].1@) is None && #[trigger] field_change(
                                pv,
                                *before,
                                *after,
                                am[q2].1@,
                                op2,
                            ));
                    }
                }
                if exists|q: int|
                    0 <= q < i && last_field(before.items@, am[q].1@) is None && #[trigger] field_change(
                        pv,
                        *before,
                        *after,
                        am[q].1@,
                        op2,
                    ) {
                    let q = choose|q: int|
                        0 <= q < i && last_field(before.items@, am[q].1@) is None && #[trigger] field_change(
                            pv,
                            *before,
                            *after,
                            am[q].1@,
                            op2,
                        );
                    assert(0 <= q < i + 1);
                }
            }
        }
        i = i + 1;
    }
    proof {
        assert forall|op: OpView| #[trigger] added_ops(o, ops@).contains(op) <==> exists|y: Seq<char>|
            #[trigger] field_change(pv, *before, *after, y, op) by {
            if exists|y: Seq<char>| #[trigger] field_change(pv, *before, *after, y, op) {
                let y = choose|y: Seq<char>| #[trigger] field_change(pv, *before, *after, y, op);
                let e = Seq::<char>::empty();
                if last_field(before.items@, y) is Some {
                    assert(map_get(bm, e, y) is Some);
                    lemma_entry_of(bm, e, y);
                    let q = choose|q: int| 0 <= q < bm.len() && bm[q].0@ == e && (#[trigger] bm[q]).1@ == y;
                    assert(field_change(pv, *before, *after, bm[q].1@, op));
                } else {
                    assert(map_get(am, e, y) is Some);
                    lemma_entry_of(am, e, y);
                    let q = choose|q: int| 0 <= q < am.len() && am[q].0@ == e && (#[trigger] am[q]).1@ == y;
                    assert(field_change(pv, *before, *after, am[q].1@, op));
                }
            }
        }
    }
}

fn same_strings(a: &Vec<String>, b: &Vec<String>) -> (r: bool)
    ensures
        r == (a@.map_values(|t: String| t@) == b@.map_values(|t: String| t@)),
{
    if a.len() != b.len() {
        proof {
            assert(a@.map_values(|t: String| t@).len() != b@.map_values(|t: String| t@).len());
        }
        return false;
    }
    let mut i: usize = 0;
    while i < a.len()
        invariant
            i <= a@.len(),
            a@.len() == b@.len(),
            forall|k: int| 0 <= k < i ==> (#[trigger] a@[k])@ == b@[k]@,
        decreases a@.len() - i,
    {
        if !str_eq(a[i].as_str(), b[i].as_str()) {
            proof {
                assert(a@.map_values(|t: String| t@)[i as int] != b@.map_values(|t: String| t@)[i as int]);
            }
            return false;
        }
        i = i + 1;
    }
    assert(a@.map_values(|t: String| t@) =~= b@.map_values(|t: String| t@));
    true
}

fn contains_string(v: &Vec<String>, s: &str) -> (r: bool)
    ensures
        r == in_names(v@, s@),
{
    let mut i: usize = 0;
    while i < v.len()
        invariant
            i <= v@.len(),
            forall|k: int| 0 <= k < i ==> (#[trigger] v@[k])@ != s@,
        decreases v@.len() - i,
    {
        if str_eq(v[i].as_str(), s) {
            return true;
        }
        i = i + 1;
    }
    false
}

fn same_string_sets(a: &Vec<String>, b: &Vec<String>) -> (r: bool)
    ensures
        r == same_names(a@, b@),
{
    let mut i: usize = 0;
    while i < a.len()
        invariant
            i <= a@.len(),
            forall|q: int| 0 <= q < i ==> in_names(b@, (#[trigger] a@[q])@),
        decreases a@.len() - i,
    {
        if !contains_string(b, a[i].as_str()) {
            return false;
        }
        i = i + 1;
    }
    let mut j: usize = 0;
    while j < b.len()
        invariant
            j <= b@.len(),
            forall|q: int| 0 <= q < a@.len() ==> in_names(b@, (#[trigger] a@[q])@),
            forall|q: int| 0 <= q < j ==> in_names(a@, (#[trigger] b@[q])@),
        decreases b@.len() - j,
    {
        if !contains_string(a, b[j].as_str()) {
            return false;
        }
        j = j + 1;
    }
    true
}

/// The `reorder_items` op for the steps of `before` and `after`, when
/// they hold the same step names (more than one) in another order.
pub open spec fn step_order_ops(event_name: Seq<char>, before: BlockDecl, after: BlockDecl) -> Seq<OpView> {
    let b = child_names(before.items@, "step"@);
    let a = child_names(after.items@, "step"@);
    if b.len() <= 1 || b == a {
        seq![]
    } else if same_name_view_sets(b, a) {
        seq![OpView::ReorderItems { block_path: seq![("event"@, event_name)], new_order: a }]
    } else {
        seq![]
    }
}

/// `a` and `b` hold the same names (as sets).
pub open spec fn same_name_view_sets(a: Seq<Seq<char>>, b: Seq<Seq<char>>) -> bool {
    &&& forall|i: int| 0 <= i < a.len() ==> b.contains(#[trigger] a[i])
    &&& forall|j: int| 0 <= j < b.len() ==> a.contains(#[trigger] b[j])
}

fn diff_nested_step_order(event_name: &str, before: &BlockDecl, after: &BlockDecl, ops: &mut Vec<SemanticPatchOp>)
    ensures
        ops_view(final(ops)@) == ops_view(old(ops)@) + step_order_ops(event_name@, *before, *after),
{
    let before_order = child_order(before, "step");
    let after_order = child_order(after, "step");
    let ghost bv = before_order@.map_values(|t: String| t@);
    let ghost av = after_order@.map_values(|t: String| t@);
    if before_order.len() <= 1 || same_strings(&before_order, &after_order) {
        assert(ops_view(ops@) =~= ops_view(old(ops)@) + Seq::<OpView>::empty());
        return;
    }
    let same = same_string_sets(&before_order, &after_order);
    proof {
        assert(same == same_name_view_sets(bv, av)) by {
            if same {
                assert forall|i: int| 0 <= i < bv.len() implies av.contains(#[trigger] bv[i]) by {
                    assert(in_names(after_order@, before_order@[i]@));
                    let j = choose|j: int| 0 <= j < after_order@.len() && (#[trigger] after_order@[j])@ == before_order@[i]@;
                    assert(av[j] == bv[i]);
                }
                assert forall|j: int| 0 <= j < av.len() implies bv.contains(#[trigger] av[j]) by {
                    assert(in_names(before_order@, after_order@[j]@));
                    let i = choose|i: int| 0 <= i < before_order@.len() && (#[trigger] before_order@[i])@ == after_order@[j]@;
                    assert(bv[i] == av[j]);
                }
            }
            if same_name_view_sets(bv, av) {
                assert forall|i: int| 0 <= i < before_order@.len() implies in_names(after_order@, (#[trigger] before_order@[i])@) by {
                    assert(av.contains(bv[i]));
                    let j = choose|j: int| 0 <= j < av.len() && av[j] == bv[i];
                    assert(after_order@[j]@ == av[j]);
                }
                assert forall|j: int| 0 <= j < after_order@.len() implies in_names(before_order@, (#[trigger] after_order@[j])@) by {
                    assert(bv.contains(av[j]));
                    let i = choose|i: int| 0 <= i < bv.len() && bv[i] == av[j];
                    assert(before_order@[i]@ == bv[i]);
                }
            }
        }
    }
    if same {
        let op = SemanticPatchOp::ReorderItems { block_path: vec![segment("event", event_name)], new_order: after_order };
        proof {
            reveal_strlit("event");
        }
        let ghost o = ops_view(ops@);
        ops.push(op);
        proof {
            assert(ops_view(ops@) =~= o.push(op_view(op)));
            assert(op_view(op) == OpView::ReorderItems { block_path: seq![("event"@, event_name@)], new_order: av }) by {
                match op {
                    SemanticPatchOp::ReorderItems { block_path, new_order } => {
                        assert(path_view(block_path@) =~= seq![("event"@, event_name@)]);
                        assert(strings_view(new_order@) =~= av);
                    },
                    _ => {},
                }
            }
        }
    } else {
        assert(ops_view(ops@) =~= ops_view(old(ops)@) + Seq::<OpView>::empty());
    }
}

/// The ops `c` added after `b`, together with those `b` added after `o`, are
/// those `c` added after `o`.
proof fn lemma_added_chain(o: Seq<SemanticPatchOp>, b: Seq<SemanticPatchOp>, c: Seq<SemanticPatchOp>)
    requires
        b.len() >= o.len(),
        c.len() >= b.len(),
        ops_view(b).subrange(0, o.len() as int) == ops_view(o),
        ops_view(c).subrange(0, b.len() as int) == ops_view(b),
    ensures
        ops_view(c).subrange(0, o.len() as int) == ops_view(o),
        forall|x: OpView| #[trigger] added_ops(o, c).contains(x) <==> added_ops(o, b).contains(x) || added_ops(b, c).contains(x),
{
    let vb = ops_view(b);
    let vc = ops_view(c);
    assert(vb.len() == b.len());
    assert(vc.len() == c.len());
    assert(vc.subrange(0, o.len() as int) =~= vb.subrange(0, o.len() as int)) by {
        assert forall|k: int| 0 <= k < o.len() implies vc[k] == vb[k] by {
            assert(vc.subrange(0, b.len() as int)[k] == vc[k]);
        }
    }
    let s1 = added_ops(o, b);
    let s2 = added_ops(b, c);
    assert(added_ops(o, c) =~= s1 + s2) by {
        assert forall|k: int| 0 <= k < s1.len() implies #[trigger] vc[o.len() + k] == s1[k] by {
            assert(vc.subrange(0, b.len() as int)[o.len() + k] == vc[o.len() + k]);
        }
    }
    assert forall|x: OpView| #[trigger] added_ops(o, c).contains(x) <==> s1.contains(x) || s2.contains(x) by {
        let t = s1 + s2;
        if t.contains(x) {
            let k = choose|k: int| 0 <= k < t.len() && t[k] == x;
            if k < s1.len() {
                assert(s1[k] == x);
            } else {
                assert(s2[k - s1.len()] == x);
            }
        }
        if s1.contains(x) {
            let k = choose|k: int| 0 <= k < s1.len() && s1[k] == x;
            assert(t[k] == x);
        }
        if s2.contains(x) {
            let k = choose|k: int| 0 <= k < s2.len() && s2[k] == x;
            assert(t[s1.len() + k] == x);
        }
    }
}

/// `op` changes field `y` of step `s`, which both versions of the event hold.
pub open spec fn step_field_change(
    event_name: Seq<char>,
    before: BlockDecl,
    after: BlockDecl,
    s: Seq<char>,
    y: Seq<char>,
    op: OpView,
) -> bool {
    match last_child(before.items@, "step"@, s) {
        Some(bs) => match last_child(after.items@, "step"@, s) {
            Some(a) => field_change(seq![("event"@, event_name), ("step"@, s)], bs, a, y, op),
            None => false,
        },
        None => false,
    }
}

fn diff_nested_step_fields(event_name: &str, before: &BlockDecl, after: &BlockDecl, ops: &mut Vec<SemanticPatchOp>)
    ensures
        final(ops)@.len() >= old(ops)@.len(),
        ops_view(final(ops)@).subrange(0, old(ops)@.len() as int) == ops_view(old(ops)@),
        forall|op: OpView|
            #[trigger] added_ops(old(ops)@, final(ops)@).contains(op) <==> exists|s: Seq<char>, y: Seq<char>|
                #[trigger] step_field_change(event_name@, *before, *after, s, y, op),
{
    let ghost o = old(ops)@;
    let ghost ev = event_name@;
    let before_steps = child_blocks_by_key(before, "step");
    let after_steps = child_blocks_by_key(after, "step");
    let ghost bm = before_steps@;
    let ghost am = after_steps@;
    assert(ops_view(ops@).subrange(0, o.len() as int) =~= ops_view(o));
    assert(added_ops(o, ops@) =~= Seq::<OpView>::empty());
    let mut i: usize = 0;
    while i < before_steps.len()
        invariant
            i <= bm.len(),
            bm == before_steps@,
            am == after_steps@,
            keys_unique(bm),
            keys_unique(am),
            o == old(ops)@,
            ev == event_name@,
            forall|x: Seq<char>, y: Seq<char>|
                #[trigger] map_get(bm, x, y) == if x == Seq::<char>::empty() {
                    match last_child(before.items@, "step"@, y) {
                        Some(c) => Some(&c),
                        None => None,
                    }
                } else {
                    None
                },
            forall|x: Seq<char>, y: Seq<char>|
                #[trigger] map_get(am, x, y) == if x == Seq::<char>::empty() {
                    match last_child(after.items@, "step"@, y) {
                        Some(c) => Some(&c),
                        None => None,
                    }
                } else {
                    None
                },
            ops@.len() >= o.len(),
            ops_view(ops@).subrange(0, o.len() as int) == ops_view(o),
            forall|op: OpView|
                #[trigger] added_ops(o, ops@).contains(op) <==> exists|q: int, y: Seq<char>|
                    0 <= q < i && #[trigger] step_field_change(ev, *before, *after, bm[q].1@, y, op),
        decreases bm.len() - i,
    {
        let step = before_steps[i].1.as_str();
        let bs = before_steps[i].2;
        let ghost before_ops = ops@;
        proof {
            lemma_entry(bm, i as int);
            reveal_strlit("");
            assert(""@ =~= Seq::<char>::empty());
            assert(bm[i as int].0@ == Seq::<char>::empty());
            assert(last_child(before.items@, "step"@, step@) == Some(*bs));
        }
        match sorted_find(&after_steps, "", step) {
            Some(a) => {
                proof {
                    assert(map_get(am, Seq::<char>::empty(), step@) == Some(*a));
                    assert(last_child(after.items@, "step"@, step@) == Some(**a));
                }
                let path = vec![segment("event", event_name), segment("step", step)];
                let ghost pv = path_view(path@);
                proof {
                    assert(pv =~= seq![("event"@, ev), ("step"@, step@)]);
                }
                diff_block_fields(&path, bs, *a, ops);
                proof {
                    lemma_added_chain(o, before_ops, ops@);
                    assert forall|op2: OpView| #[trigger] added_ops(before_ops, ops@).contains(op2) <==> exists|y: Seq<char>|
                        #[trigger] step_field_change(ev, *before, *after, step@, y, op2) by {
                        if added_ops(before_ops, ops@).contains(op2) {
                            let y = choose|y: Seq<char>| #[trigger] field_change(pv, *bs, **a, y, op2);
                            assert(step_field_change(ev, *before, *after, step@, y, op2));
                        }
                        if exists|y: Seq<char>| #[trigger] step_field_change(ev, *before, *after, step@, y, op2) {
                            let y = choose|y: Seq<char>| #[trigger] step_field_change(ev, *before, *after, step@, y, op2);
                            assert(field_change(pv, *bs, **a, y, op2));
                        }
                    }
                }
            },
            None => {
                proof {
                    assert(map_get(am, Seq::<char>::empty(), step@) is None);
                    assert(last_child(after.items@, "step"@, step@) is None);
                    assert(added_ops(before_ops, ops@) =~= Seq::<OpView>::empty());
                    assert(ops_view(ops@).subrange(0, before_ops.len() as int) =~= ops_view(before_ops));
                    lemma_added_chain(o, before_ops, ops@);
                    assert forall|op2: OpView, y: Seq<char>| !#[trigger] step_field_change(ev, *before, *after, step@, y, op2) by {}
                }
            },
        }
        proof {
            assert forall|op2: OpView| #[trigger] added_ops(o, ops@).contains(op2) <==> exists|q: int, y: Seq<char>|
                0 <= q < i + 1 && #[trigger] step_field_change(ev, *before, *after, bm[q].1@, y, op2) by {
                assert(added_ops(o, ops@).contains(op2) <==> added_ops(o, before_ops).contains(op2) || added_ops(before_ops, ops@).contains(op2));
                assert(added_ops(o, before_ops).contains(op2) <==> exists|q: int, y: Seq<char>|
                    0 <= q < i && #[trigger] step_field_change(ev, *before, *after, bm[q].1@, y, op2));
                assert(added_ops(before_ops, ops@).contains(op2) <==> exists|y: Seq<char>|
                    #[trigger] step_field_change(ev, *before, *after, step@, y, op2));
                assert(bm[i as int].1@ == step@);
                if exists|y: Seq<char>| #[trigger] step_field_change(ev, *before, *after, step@, y, op2) {
                    let y = choose|y: Seq<char>| #[trigger] step_field_change(ev, *before, *after, step@, y, op2);
                    assert(step_field_change(ev, *before, *after, bm[i as int].1@, y, op2));
                }
                if exists|q: int, y: Seq<char>| 0 <= q < i + 1 && #[trigger] step_field_change(ev, *before, *after, bm[q].1@, y, op2) {
                    let (q, y) = choose|q: int, y: Seq<char>| 0 <= q < i + 1 && #[trigger] step_field_change(ev, *before, *after, bm[q].1@, y, op2);
                    if q < i {
                        assert(exists|q2: int, y2: Seq<char>| 0 <= q2 < i && #[trigger] step_field_change(ev, *before, *after, bm[q2].1@, y2, op2));
                    } else {
                        assert(step_field_change(ev, *before, *after, step@, y, op2));
                    }
                }
                if exists|q: int, y: Seq<char>| 0 <= q < i && #[trigger] step_field_change(ev, *before, *after, bm[q].1@, y, op2) {
                    let (q, y) = choose|q: int, y: Seq<char>| 0 <= q < i && #[trigger] step_field_change(ev, *before, *after, bm[q].1@, y, op2);
                    assert(0 <= q < i + 1);
                }
            }
        }
        i = i + 1;
    }
    proof {
        assert forall|op2: OpView| #[trigger] added_ops(o, ops@).contains(op2) <==> exists|s: Seq<char>, y: Seq<char>|
            #[trigger] step_field_change(ev, *before, *after, s, y, op2) by {
            if exists|q: int, y: Seq<char>| 0 <= q < bm.len() && #[trigger] step_field_change(ev, *before, *after, bm[q].1@, y, op2) {
                let (q, y) = choose|q: int, y: Seq<char>| 0 <= q < bm.len() && #[trigger] step_field_change(ev, *before, *after, bm[q].1@, y, op2);
                assert(step_field_change(ev, *before, *after, bm[q].1@, y, op2));
            }
            if exists|s: Seq<char>, y: Seq<char>| #[trigger] step_field_change(ev, *before, *after, s, y, op2) {
                let (s, y) = choose|s: Seq<char>, y: Seq<char>| #[trigger] step_field_change(ev, *before, *after, s, y, op2);
                assert(map_get(bm, Seq::<char>::empty(), s) is Some);
                lemma_entry_of(bm, Seq::<char>::empty(), s);
                let q = choose|q: int| 0 <= q < bm.len() && bm[q].0@ == Seq::<char>::empty() && (#[trigger] bm[q]).1@ == s;
                assert(step_field_change(ev, *before, *after, bm[q].1@, y, op2));
            }
        }
    }
}

/// The items of a block as the lines `AddBlock` carries.
pub open spec fn items_text(items: Seq<BlockItem>) -> Seq<Seq<char>> {
    items.map_values(|it: BlockItem| trim_ws(spec_render_item(it, 0)))
}

/// `op` adds block `(k1, k2)`, which only `cur` holds.
pub open spec fn block_added_op(prev: SliceDecl, cur: SliceDecl, k1: Seq<char>, k2: Seq<char>, op: OpView) -> bool {
    &&& last_top_block(prev.items@, k1, k2) is None
    &&& match last_top_block(cur.items@, k1, k2) {
        Some(b) => op == OpView::AddBlock { kind: k1, name: k2, items: items_text(b.items@) },
        None => false,
    }
}

/// `op` removes block `(k1, k2)`, which only `prev` holds.
pub open spec fn block_removed_op(prev: SliceDecl, cur: SliceDecl, k1: Seq<char>, k2: Seq<char>, op: OpView) -> bool {
    &&& last_top_block(prev.items@, k1, k2) is Some
    &&& last_top_block(cur.items@, k1, k2) is None
    &&& op == OpView::RemoveBlock { kind: k1, name: k2 }
}

/// The changes inside block `(k1, k2)`, which both versions hold: its fields
/// and, for an event, the order and the fields of its steps.
pub open spec fn block_inner_op(k1: Seq<char>, k2: Seq<char>, bb: BlockDecl, ab: BlockDecl, op: OpView) -> bool {
    ||| exists|y: Seq<char>| #[trigger] field_change(seq![(k1, k2)], bb, ab, y, op)
    ||| k1 == "event"@ && step_order_ops(k2, bb, ab).contains(op)
    ||| k1 == "event"@ && exists|s: Seq<char>, y: Seq<char>| #[trigger] step_field_change(k2, bb, ab, s, y, op)
}

/// `op` changes something inside block `(k1, k2)`, which both versions hold.
pub open spec fn block_changed_op(prev: SliceDecl, cur: SliceDecl, k1: Seq<char>, k2: Seq<char>, op: OpView) -> bool {
    match last_top_block(prev.items@, k1, k2) {
        Some(bb) => match last_top_block(cur.items@, k1, k2) {
            Some(ab) => block_inner_op(k1, k2, bb, ab, op),
            None => false,
        },
        None => false,
    }
}

/// When `c` is `o` with `extra` after it, `extra` is what `c` added.
proof fn lemma_added_append(o: Seq<SemanticPatchOp>, c: Seq<SemanticPatchOp>, extra: Seq<OpView>)
    requires
        ops_view(c) == ops_view(o) + extra,
    ensures
        c.len() >= o.len(),
        ops_view(c).subrange(0, o.len() as int) == ops_view(o),
        added_ops(o, c) == extra,
{
    assert(ops_view(c).len() == c.len());
    assert(ops_view(o).len() == o.len());
    assert(ops_view(c).subrange(0, o.len() as int) =~= ops_view(o));
    assert(added_ops(o, c) =~= extra);
}

/// A key the map gives a value for is the key of the entry at the index
/// returned.
proof fn lemma_key_of<V>(m: Seq<(String, String, V)>, k1: Seq<char>, k2: Seq<char>) -> (q: int)
    requires
        map_get(m, k1, k2) is Some,
    ensures
        0 <= q < m.len(),
        m[q].0@ == k1,
        m[q].1@ == k2,
{
    lemma_entry_of(m, k1, k2);
    choose|q: int| 0 <= q < m.len() && m[q].0@ == k1 && (#[trigger] m[q]).1@ == k2
}

fn diff_blocks(previous: &SliceDecl, current: &SliceDecl, ops: &mut Vec<SemanticPatchOp>)
    ensures
        final(ops)@.len() >= old(ops)@.len(),
        ops_view(final(ops)@).subrange(0, old(ops)@.len() as int) == ops_view(old(ops)@),
        forall|op: OpView|
            #[trigger] added_ops(old(ops)@, final(ops)@).contains(op) <==> (exists|k1: Seq<char>, k2: Seq<char>|
                #[trigger] block_added_op(*previous, *current, k1, k2, op)) || (exists|k1: Seq<char>, k2: Seq<char>|
                #[trigger] block_removed_op(*previous, *current, k1, k2, op)) || (exists|k1: Seq<char>, k2: Seq<char>|
                #[trigger] block_changed_op(*previous, *current, k1, k2, op)),
{
    let ghost o = old(ops)@;
    let ghost pr = *previous;
    let ghost cu = *current;
    let previous_blocks = top_level_blocks_by_key(previous);
    let current_blocks = top_level_blocks_by_key(current);
    let ghost pm = previous_blocks@;
    let ghost cm = current_blocks@;
    assert(ops_view(ops@).subrange(0, o.len() as int) =~= ops_view(o));
    assert(added_ops(o, ops@) =~= Seq::<OpView>::empty());
    let mut i: usize = 0;
    while i < current_blocks.len()
        invariant
            i <= cm.len(),
            pm == previous_blocks@,
            cm == current_blocks@,
            keys_unique(pm),
            keys_unique(cm),
            o == old(ops)@,
            pr == *previous,
            cu == *current,
            forall|x: Seq<char>, y: Seq<char>|
                #[trigger] map_get(pm, x, y) == match last_top_block(pr.items@, x, y) {
                    Some(b) => Some(&b),
                    None => None,
                },
            forall|x: Seq<char>, y: Seq<char>|
                #[trigger] map_get(cm, x, y) == match last_top_block(cu.items@, x, y) {
                    Some(b) => Some(&b),
                    None => None,
                },
            ops@.len() >= o.len(),
            ops_view(ops@).subrange(0, o.len() as int) == ops_view(o),
            forall|op: OpView|
                #[trigger] added_ops(o, ops@).contains(op) <==> exists|q: int|
                    0 <= q < i && #[trigger] block_added_op(pr, cu, cm[q].0@, cm[q].1@, op),
        decreases cm.len() - i,
    {
        let k1 = current_blocks[i].0.as_str();
        let k2 = current_blocks[i].1.as_str();
        let ghost before_ops = ops@;
        proof {
            lemma_entry(cm, i as int);
        }
        if sorted_find(&previous_blocks, k1, k2).is_none() {
            let b = current_blocks[i].2;
            proof {
                assert(last_top_block(cu.items@, k1@, k2@) == Some(*b));
                assert(last_top_block(pr.items@, k1@, k2@) is None);
            }
            let mut items: Vec<String> = Vec::new();
            let mut j: usize = 0;
            while j < b.items.len()
                invariant
                    j <= b.items@.len(),
                    strings_view(items@) == items_text(b.items@.take(j as int)),
                decreases b.items@.len() - j,
            {
                let ghost pre = items@;
                items.push(item_to_string(&b.items[j]));
                proof {
                    assert(b.items@.take(j + 1) =~= b.items@.take(j as int).push(b.items@[j as int]));
                    assert(strings_view(items@) =~= strings_view(pre).push(items@[j as int]@));
                    assert(items_text(b.items@.take(j + 1)) =~= items_text(b.items@.take(j as int)).push(
                        trim_ws(spec_render_item(b.items@[j as int], 0)),
                    ));
                }
                j = j + 1;
            }
            proof {
                assert(b.items@.take(b.items@.len() as int) =~= b.items@);
            }
            let op = SemanticPatchOp::AddBlock { kind: owned(k1), name: owned(k2), items };
            let ghost a0 = ops@;
            ops.push(op);
            proof {
                assert(ops_view(ops@) =~= ops_view(a0).push(op_view(op)));
                lemma_push_op(o, a0, ops@, op);
                assert forall|op2: OpView| #[trigger] block_added_op(pr, cu, k1@, k2@, op2) <==> op2 == op_view(op) by {}
                assert forall|op2: OpView| #[trigger] added_ops(o, ops@).contains(op2) <==> (added_ops(o, before_ops).contains(op2)
                    || block_added_op(pr, cu, k1@, k2@, op2)) by {}
            }
        } else {
            proof {
                assert(last_top_block(pr.items@, k1@, k2@) is Some);
                assert forall|op2: OpView| #[trigger] added_ops(o, ops@).contains(op2) <==> (added_ops(o, before_ops).contains(op2)
                    || block_added_op(pr, cu, k1@, k2@, op2)) by {}
            }
        }
        proof {
            assert forall|op2: OpView| #[trigger] added_ops(o, ops@).contains(op2) <==> exists|q: int|
                0 <= q < i + 1 && #[trigger] block_added_op(pr, cu, cm[q].0@, cm[q].1@, op2) by {
                assert(added_ops(o, ops@).contains(op2) <==> (added_ops(o, before_ops).contains(op2)
                    || block_added_op(pr, cu, k1@, k2@, op2)));
                assert(added_ops(o, before_ops).contains(op2) <==> exists|q: int|
                    0 <= q < i && #[trigger] block_added_op(pr, cu, cm[q].0@, cm[q].1@, op2));
                if block_added_op(pr, cu, k1@, k2@, op2) {
                    assert(block_added_op(pr, cu, cm[i as int].0@, cm[i as int].1@, op2));
                }
                if exists|q: int| 0 <= q < i + 1 && #[trigger] block_added_op(pr, cu, cm[q].0@, cm[q].1@, op2) {
                    let q = choose|q: int| 0 <= q < i + 1 && #[trigger] block_added_op(pr, cu, cm[q].0@, cm[q].1@, op2);
                    if q < i {
                        assert(exists|q2: int| 0 <= q2 < i && #[trigger] block_added_op(pr, cu, cm[q2].0@, cm[q2].1@, op2));
                    }
                }
                if exists|q: int| 0 <= q < i && #[trigger] block_added_op(pr, cu, cm[q].0@, cm[q].1@, op2) {
                    let q = choose|q: int| 0 <= q < i && #[trigger] block_added_op(pr, cu, cm[q].0@, cm[q].1@, op2);
                    assert(0 <= q < i + 1);
                }
            }
        }
        i = i + 1;
    }
    let mut i: usize = 0;
    while i < previous_blocks.len()
        invariant
            i <= pm.len(),
            pm == previous_blocks@,
            cm == current_blocks@,
            keys_unique(pm),
            keys_unique(cm),
            o == old(ops)@,
            pr == *previous,
            cu == *current,
            forall|x: Seq<char>, y: Seq<char>|
                #[trigger] map_get(pm, x, y) == match last_top_block(pr.items@, x, y) {
                    Some(b) => Some(&b),
                    None => None,
                },
            forall|x: Seq<char>, y: Seq<char>|
                #[trigger] map_get(cm, x, y) == match last_top_block(cu.items@, x, y) {
                    Some(b) => Some(&b),
                    None => None,
                },
            ops@.len() >= o.len(),
            ops_view(ops@).subrange(0, o.len() as int) == ops_view(o),
            forall|op: OpView|
                #[trigger] added_ops(o, ops@).contains(op) <==> (exists|q: int|
                    0 <= q < cm.len() && #[trigger] block_added_op(pr, cu, cm[q].0@, cm[q].1@, op)) || (exists|q: int|
                    0 <= q < i && #[trigger] block_removed_op(pr, cu, pm[q].0@, pm[q].1@, op)),
        decreases pm.len() - i,
    {
        let k1 = previous_blocks[i].0.as_str();
        let k2 = previous_blocks[i].1.as_str();
        let ghost before_ops = ops@;
        proof {
            lemma_entry(pm, i as int);
            assert(last_top_block(pr.items@, k1@, k2@) is Some);
        }
        if sorted_find(&current_blocks, k1, k2).is_none() {
            let op = SemanticPatchOp::RemoveBlock { kind: owned(k1), name: owned(k2) };
            let ghost a0 = ops@;
            ops.push(op);
            proof {
                assert(last_top_block(cu.items@, k1@, k2@) is None);
                assert(ops_view(ops@) =~= ops_view(a0).push(op_view(op)));
                lemma_push_op(o, a0, ops@, op);
                assert forall|op2: OpView| #[trigger] block_removed_op(pr, cu, k1@, k2@, op2) <==> op2 == op_view(op) by {}
                assert forall|op2: OpView| #[trigger] added_ops(o, ops@).contains(op2) <==> (added_ops(o, before_ops).contains(op2)
                    || block_removed_op(pr, cu, k1@, k2@, op2)) by {}
            }
        } else {
            proof {
                assert(last_top_block(cu.items@, k1@, k2@) is Some);
                assert forall|op2: OpView| #[trigger] added_ops(o, ops@).contains(op2) <==> (added_ops(o, before_ops).contains(op2)
                    || block_removed_op(pr, cu, k1@, k2@, op2)) by {}
            }
        }
        proof {
            assert forall|op2: OpView| #[trigger] added_ops(o, ops@).contains(op2) <==> (exists|q: int|
                0 <= q < cm.len() && #[trigger] block_added_op(pr, cu, cm[q].0@, cm[q].1@, op2)) || (exists|q: int|
                0 <= q < i + 1 && #[trigger] block_removed_op(pr, cu, pm[q].0@, pm[q].1@, op2)) by {
                assert(added_ops(o, ops@).contains(op2) <==> (added_ops(o, before_ops).contains(op2)
                    || block_removed_op(pr, cu, k1@, k2@, op2)));
                if block_removed_op(pr, cu, k1@, k2@, op2) {
                    assert(block_removed_op(pr, cu, pm[i as int].0@, pm[i as int].1@, op2));
                }
                if exists|q: int| 0 <= q < i + 1 && #[trigger] block_removed_op(pr, cu, pm[q].0@, pm[q].1@, op2) {
                    let q = choose|q: int| 0 <= q < i + 1 && #[trigger] block_removed_op(pr, cu, pm[q].0@, pm[q].1@, op2);
                    if q < i {
                        assert(exists|q2: int| 0 <= q2 < i && #[trigger] block_removed_op(pr, cu, pm[q2].0@, pm[q2].1@, op2));
                    }
                }
                if exists|q: int| 0 <= q < i && #[trigger] block_removed_op(pr, cu, pm[q].0@, pm[q].1@, op2) {
                    let q = choose|q: int| 0 <= q < i && #[trigger] block_removed_op(pr, cu, pm[q].0@, pm[q].1@, op2);
                    assert(0 <= q < i + 1);
                }
            }
        }
        i = i + 1;
    }
    let mut i: usize = 0;
    while i < previous_blocks.len()
        invariant
            i <= pm.len(),
            pm == previous_blocks@,
            cm == current_blocks@,
            keys_unique(pm),
            keys_unique(cm),
            o == old(ops)@,
            pr == *previous,
            cu == *current,
            forall|x: Seq<char>, y: Seq<char>|
                #[trigger] map_get(pm, x, y) == match last_top_block(pr.items@, x, y) {
                    Some(b) => Some(&b),
                    None => None,
                },
            forall|x: Seq<char>, y: Seq<char>|
                #[trigger] map_get(cm, x, y) == match last_top_block(cu.items@, x, y) {
                    Some(b) => Some(&b),
                    None => None,
                },
            ops@.len() >= o.len(),
            ops_view(ops@).subrange(0, o.len() as int) == ops_view(o),
            forall|op: OpView|
                #[trigger] added_ops(o, ops@).contains(op) <==> (exists|q: int|
                    0 <= q < cm.len() && #[trigger] block_added_op(pr, cu, cm[q].0@, cm[q].1@, op)) || (exists|q: int|
                    0 <= q < pm.len() && #[trigger] block_removed_op(pr, cu, pm[q].0@, pm[q].1@, op)) || (exists|q: int|
                    0 <= q < i && #[trigger] block_changed_op(pr, cu, pm[q].0@, pm[q].1@, op)),
        decreases pm.len() - i,
    {
        let k1 = previous_blocks[i].0.as_str();
        let k2 = previous_blocks[i].1.as_str();
        let ghost before_ops = ops@;
        proof {
            lemma_entry(pm, i as int);
        }
        match sorted_find(&current_blocks, k1, k2) {
            Some(after) => {
                let before = previous_blocks[i].2;
                proof {
                    assert(last_top_block(pr.items@, k1@, k2@) == Some(*before));
                    assert(last_top_block(cu.items@, k1@, k2@) == Some(**after));
                }
                let path = vec![segment(k1, k2)];
                proof {
                    assert(path_view(path@) =~= seq![(k1@, k2@)]);
                }
                diff_block_fields(&path, before, *after, ops);
                let ghost after_fields = ops@;
                proof {
                    lemma_added_chain(o, before_ops, ops@);
                }
                if str_eq(k1, "event") {
                    proof {
                        reveal_strlit("event");
                    }
                    diff_nested_step_order(k2, before, *after, ops);
                    let ghost after_order = ops@;
                    proof {
                        lemma_added_append(after_fields, after_order, step_order_ops(k2@, *before, **after));
                        lemma_added_chain(before_ops, after_fields, after_order);
                    }
                    diff_nested_step_fields(k2, before, *after, ops);
                    proof {
                        lemma_added_chain(before_ops, after_order, ops@);
                        lemma_added_chain(o, before_ops, ops@);
                        assert forall|op2: OpView| #[trigger] added_ops(before_ops, ops@).contains(op2) <==> block_inner_op(
                            k1@,
                            k2@,
                            *before,
                            **after,
                            op2,
                        ) by {
                            assert(added_ops(before_ops, ops@).contains(op2) <==> added_ops(before_ops, after_order).contains(op2)
                                || added_ops(after_order, ops@).contains(op2));
                            assert(added_ops(before_ops, after_order).contains(op2) <==> added_ops(before_ops, after_fields).contains(op2)
                                || added_ops(after_fields, after_order).contains(op2));
                        }
                    }
                } else {
                    proof {
                        reveal_strlit("event");
                        assert(k1@ != "event"@);
                        assert forall|op2: OpView| #[trigger] added_ops(before_ops, ops@).contains(op2) <==> block_inner_op(
                            k1@,
                            k2@,
                            *before,
                            **after,
                            op2,
                        ) by {}
                    }
                }
                proof {
                    assert forall|op2: OpView| #[trigger] added_ops(o, ops@).contains(op2) <==> (added_ops(o, before_ops).contains(op2)
                        || block_changed_op(pr, cu, k1@, k2@, op2)) by {
                        assert(added_ops(o, ops@).contains(op2) <==> added_ops(o, before_ops).contains(op2)
                            || added_ops(before_ops, ops@).contains(op2));
                        assert(added_ops(before_ops, ops@).contains(op2) <==> block_inner_op(k1@, k2@, *before, **after, op2));
                    }
                }
            },
            None => {
                proof {
                    assert(last_top_block(cu.items@, k1@, k2@) is None);
                    assert forall|op2: OpView| #[trigger] added_ops(o, ops@).contains(op2) <==> (added_ops(o, before_ops).contains(op2)
                        || block_changed_op(pr, cu, k1@, k2@, op2)) by {}
                }
            },
        }
        proof {
            assert forall|op2: OpView| #[trigger] added_ops(o, ops@).contains(op2) <==> (exists|q: int|
                0 <= q < cm.len() && #[trigger] block_added_op(pr, cu, cm[q].0@, cm[q].1@, op2)) || (exists|q: int|
                0 <= q < pm.len() && #[trigger] block_removed_op(pr, cu, pm[q].0@, pm[q].1@, op2)) || (exists|q: int|
                0 <= q < i + 1 && #[trigger] block_changed_op(pr, cu, pm[q].0@, pm[q].1@, op2)) by {
                assert(added_ops(o, ops@).contains(op2) <==> (added_ops(o, before_ops).contains(op2)
                    || block_changed_op(pr, cu, k1@, k2@, op2)));
                if block_changed_op(pr, cu, k1@, k2@, op2) {
                    assert(block_changed_op(pr, cu, pm[i as int].0@, pm[i as int].1@, op2));
                }
                if exists|q: int| 0 <= q < i + 1 && #[trigger] block_changed_op(pr, cu, pm[q].0@, pm[q].1@, op2) {
                    let q = choose|q: int| 0 <= q < i + 1 && #[trigger] block_changed_op(pr, cu, pm[q].0@, pm[q].1@, op2);
                    if q < i {
                        assert(exists|q2: int| 0 <= q2 < i && #[trigger] block_changed_op(pr, cu, pm[q2].0@, pm[q2].1@, op2));
                    }
                }
                if exists|q: int| 0 <= q < i && #[trigger] block_changed_op(pr, cu, pm[q].0@, pm[q].1@, op2) {
                    let q = choose|q: int| 0 <= q < i && #[trigger] block_changed_op(pr, cu, pm[q].0@, pm[q].1@, op2);
                    assert(0 <= q < i + 1);
                }
            }
        }
        i = i + 1;
    }
    proof {
        assert forall|op2: OpView| #[trigger] added_ops(o, ops@).contains(op2) <==> (exists|k1: Seq<char>, k2: Seq<char>|
            #[trigger] block_added_op(pr, cu, k1, k2, op2)) || (exists|k1: Seq<char>, k2: Seq<char>|
            #[trigger] block_removed_op(pr, cu, k1, k2, op2)) || (exists|k1: Seq<char>, k2: Seq<char>|
            #[trigger] block_changed_op(pr, cu, k1, k2, op2)) by {
            if exists|q: int| 0 <= q < cm.len() && #[trigger] block_added_op(pr, cu, cm[q].0@, cm[q].1@, op2) {
                let q = choose|q: int| 0 <= q < cm.len() && #[trigger] block_added_op(pr, cu, cm[q].0@, cm[q].1@, op2);
                assert(block_added_op(pr, cu, cm[q].0@, cm[q].1@, op2));
            }
            if exists|q: int| 0 <= q < pm.len() && #[trigger] block_removed_op(pr, cu, pm[q].0@, pm[q].1@, op2) {
                let q = choose|q: int| 0 <= q < pm.len() && #[trigger] block_removed_op(pr, cu, pm[q].0@, pm[q].1@, op2);
                assert(block_removed_op(pr, cu, pm[q].0@, pm[q].1@, op2));
            }
            if exists|q: int| 0 <= q < pm.len() && #[trigger] block_changed_op(pr, cu, pm[q].0@, pm[q].1@, op2) {
                let q = choose|q: int| 0 <= q < pm.len() && #[trigger] block_changed_op(pr, cu, pm[q].0@, pm[q].1@, op2);
                assert(block_changed_op(pr, cu, pm[q].0@, pm[q].1@, op2));
            }
            if exists|k1: Seq<char>, k2: Seq<char>| #[trigger] block_added_op(pr, cu, k1, k2, op2) {
                let (k1, k2) = choose|k1: Seq<char>, k2: Seq<char>| #[trigger] block_added_op(pr, cu, k1, k2, op2);
                assert(map_get(cm, k1, k2) is Some);
                let q = lemma_key_of(cm, k1, k2);
                assert(block_added_op(pr, cu, cm[q].0@, cm[q].1@, op2));
            }
            if exists|k1: Seq<char>, k2: Seq<char>| #[trigger] block_removed_op(pr, cu, k1, k2, op2) {
                let (k1, k2) = choose|k1: Seq<char>, k2: Seq<char>| #[trigger] block_removed_op(pr, cu, k1, k2, op2);
                assert(map_get(pm, k1, k2) is Some);
                let q = lemma_key_of(pm, k1, k2);
                assert(block_removed_op(pr, cu, pm[q].0@, pm[q].1@, op2));
            }
            if exists|k1: Seq<char>, k2: Seq<char>| #[trigger] block_changed_op(pr, cu, k1, k2, op2) {
                let (k1, k2) = choose|k1: Seq<char>, k2: Seq<char>| #[trigger] block_changed_op(pr, cu, k1, k2, op2);
                assert(map_get(pm, k1, k2) is Some);
                let q = lemma_key_of(pm, k1, k2);
                assert(block_changed_op(pr, cu, pm[q].0@, pm[q].1@, op2));
            }
        }
    }
}

/// The semantic ops that turn one projection into another: none when they
/// are the same text, else an error when no op explains the change.
fn diff_projections(previous: &str, current: &str) -> (r: Result<Vec<SemanticPatchOp>, RevisionSynthesisError>)
    ensures
        previous@ == current@ ==> (r matches Ok(ops) && ops@.len() == 0),
        previous@ != current@ ==> (r matches Ok(ops) ==> ops@.len() > 0),
{
    if str_eq(previous, current) {
        return Ok(Vec::new());
    }
    let prev = parser::parse(previous);
    let cur = parser::parse(current);
    let mut diagnostics = prev.diagnostics;
    let mut more = cur.diagnostics;
    diagnostics.append(&mut more);
    if has_error(&diagnostics) {
        return Err(synthesis_error("cannot diff invalid source projection", diagnostics));
    }
    let previous_slice = match &prev.file.slice {
        Some(s) => s,
        None => return Err(diff_vocab_error(cur.file.span, "previous projection has no slice")),
    };
    let current_slice = match &cur.file.slice {
        Some(s) => s,
        None => return Err(diff_vocab_error(cur.file.span, "current projection has no slice")),
    };
    let mut ops: Vec<SemanticPatchOp> = Vec::new();
    diff_imports(previous_slice, current_slice, &mut ops);
    diff_blocks(previous_slice, current_slice, &mut ops);
    if ops.len() == 0 {
        return Err(
            diff_vocab_error(cur.file.span, "source projection changed but no v0 semantic op represented the diff"),
        );
    }
    Ok(ops)
}

// ---------------------------------------------------------------------------
// Rendering revisions into the source
// ---------------------------------------------------------------------------

/// The quoted strings of `items`, separated by `, `.
pub open spec fn quoted_list(items: Seq<String>) -> Seq<char>
    decreases items.len(),
{
    if items.len() == 0 {
        seq![]
    } else if items.len() == 1 {
        spec_quote_string(items[0]@)
    } else {
        quoted_list(items.drop_last()) + ", "@ + spec_quote_string(items.last()@)
    }
}

fn push_quoted_list(out: &mut String, items: &Vec<String>)
    ensures
        final(out)@ == old(out)@ + quoted_list(items@),
{
    let ghost o0 = out@;
    let mut i: usize = 0;
    assert(items@.take(0) =~= Seq::<String>::empty());
    assert(out@ =~= o0 + quoted_list(items@.take(0)));
    while i < items.len()
        invariant
            i <= items@.len(),
            o0 == old(out)@,
            out@ == o0 + quoted_list(items@.take(i as int)),
        decreases items@.len() - i,
    {
        let ghost t = items@.take(i + 1);
        assert(t.drop_last() =~= items@.take(i as int));
        assert(t.last() == items@[i as int]);
        if i > 0 {
            out.append(", ");
        }
        let q = quote_string(items[i].as_str());
        out.append(q.as_str());
        proof {
            if i == 0 {
                assert(t =~= seq![items@[0]]);
                assert(out@ =~= o0 + quoted_list(t));
            } else {
                assert(out@ =~= o0 + quoted_list(t));
            }
        }
        i = i + 1;
    }
    assert(items@.take(i as int) =~= items@);
}

/// One path segment as an inline map.
pub open spec fn segment_text(g: BlockPathSegment) -> Seq<char> {
    "{ kind: "@ + spec_quote_string(g.kind@) + ", name: "@ + spec_quote_string(g.name@) + " }"@
}

/// The segments of a block path as inline maps, separated by `, `.
pub open spec fn path_text(path: Seq<BlockPathSegment>) -> Seq<char>
    decreases path.len(),
{
    if path.len() == 0 {
        seq![]
    } else if path.len() == 1 {
        segment_text(path[0])
    } else {
        path_text(path.drop_last()) + ", "@ + segment_text(path.last())
    }
}

fn render_block_path(path: &Vec<BlockPathSegment>) -> (r: String)
    ensures
        r@ == path_text(path@),
{
    let mut out = String::new();
    let mut i: usize = 0;
    assert(path@.take(0) =~= Seq::<BlockPathSegment>::empty());
    assert(out@ =~= path_text(path@.take(0)));
    while i < path.len()
        invariant
            i <= path@.len(),
            out@ == path_text(path@.take(i as int)),
        decreases path@.len() - i,
    {
        let ghost t = path@.take(i + 1);
        let ghost o = out@;
        assert(t.drop_last() =~= path@.take(i as int));
        assert(t.last() == path@[i as int]);
        if i > 0 {
            out.append(", ");
        }
        out.append("{ kind: ");
        let k = quote_string(path[i].kind.as_str());
        out.append(k.as_str());
        out.append(", name: ");
        let n = quote_string(path[i].name.as_str());
        out.append(n.as_str());
        out.append(" }");
        proof {
            if i == 0 {
                assert(t =~= seq![path@[0]]);
                assert(out@ =~= segment_text(path@[0]));
            } else {
                assert(out@ =~= o + ", "@ + segment_text(path@[i as int]));
            }
        }
        i = i + 1;
    }
    assert(path@.take(i as int) =~= path@);
    out
}

fn push_q(out: &mut String, s: &str)
    ensures
        final(out)@ == old(out)@ + spec_quote_string(s@),
{
    let q = quote_string(s);
    out.append(q.as_str());
}

/// An op as an inline map.
pub open spec fn op_map_text(op: SemanticPatchOp) -> Seq<char> {
    match op {
        SemanticPatchOp::GenesisFromMaterializedView { source_hash, byte_len, line_count } => "{ op: \"genesis_from_materialized_view\", source_hash: "@
            + spec_quote_string(source_hash@) + ", byte_len: "@ + decimal_text(byte_len as nat) + ", line_count: "@
            + decimal_text(line_count as nat) + " }"@,
        SemanticPatchOp::AddSlice { id, .. } => "{ op: \"add_slice\", id: "@ + spec_quote_string(id@) + " }"@,
        SemanticPatchOp::AddImport { alias, path, .. } => "{ op: \"add_import\", alias: "@ + spec_quote_string(alias@)
            + ", path: "@ + spec_quote_string(path@) + " }"@,
        SemanticPatchOp::AddWalk { walk, .. } => "{ op: \"add_walk\", walk: "@ + int_text(walk as int) + " }"@,
        SemanticPatchOp::AddDeclaration { kind, id, .. } => "{ op: \"add_declaration\", kind: "@ + spec_quote_string(kind@)
            + ", id: "@ + spec_quote_string(id@) + " }"@,
        SemanticPatchOp::AddStep { event, id, .. } => "{ op: \"add_step\", event: "@ + spec_quote_string(event@) + ", id: "@
            + spec_quote_string(id@) + " }"@,
        SemanticPatchOp::AddBlock { kind, name, items } => "{ op: \"add_block\", kind: "@ + spec_quote_string(kind@)
            + ", name: "@ + spec_quote_string(name@) + ", items: ["@ + quoted_list(items@) + "] }"@,
        SemanticPatchOp::RemoveBlock { kind, name } => "{ op: \"remove_block\", kind: "@ + spec_quote_string(kind@)
            + ", name: "@ + spec_quote_string(name@) + " }"@,
        SemanticPatchOp::ModifyField { block_path, field_name, value } => "{ op: \"modify_field\", block_path: ["@
            + path_text(block_path@) + "], field_name: "@ + spec_quote_string(field_name@) + ", value: "@
            + spec_quote_string(value@) + " }"@,
        SemanticPatchOp::RemoveField { block_path, field_name } => "{ op: \"remove_field\", block_path: ["@ + path_text(
            block_path@,
        ) + "], field_name: "@ + spec_quote_string(field_name@) + " }"@,
        SemanticPatchOp::ReorderItems { block_path, new_order } => "{ op: \"reorder_items\", block_path: ["@ + path_text(
            block_path@,
        ) + "], new_order: ["@ + quoted_list(new_order@) + "] }"@,
    }
}

/// An op as an inline map.
fn render_op_map(op: &SemanticPatchOp) -> (r: String)
    ensures
        r@ == op_map_text(*op),
{
    let mut o = String::new();
    assert(o@ =~= Seq::<char>::empty());
    match op {
        SemanticPatchOp::GenesisFromMaterializedView { source_hash, byte_len, line_count } => {
            o.append("{ op: \"genesis_from_materialized_view\", source_hash: ");
            push_q(&mut o, source_hash.as_str());
            o.append(", byte_len: ");
            let b = u64_text(*byte_len as u64);
            o.append(b.as_str());
            o.append(", line_count: ");
            let l = u64_text(*line_count as u64);
            o.append(l.as_str());
            o.append(" }");
        },
        SemanticPatchOp::AddSlice { id, .. } => {
            o.append("{ op: \"add_slice\", id: ");
            push_q(&mut o, id.as_str());
            o.append(" }");
        },
        SemanticPatchOp::AddImport { alias, path, .. } => {
            o.append("{ op: \"add_import\", alias: ");
            push_q(&mut o, alias.as_str());
            o.append(", path: ");
            push_q(&mut o, path.as_str());
            o.append(" }");
        },
        SemanticPatchOp::AddWalk { walk, .. } => {
            o.append("{ op: \"add_walk\", walk: ");
            let w = i64_text(*walk);
            o.append(w.as_str());
            o.append(" }");
        },
        SemanticPatchOp::AddDeclaration { kind, id, .. } => {
            o.append("{ op: \"add_declaration\", kind: ");
            push_q(&mut o, kind.as_str());
            o.append(", id: ");
            push_q(&mut o, id.as_str());
            o.append(" }");
        },
        SemanticPatchOp::AddStep { event, id, .. } => {
            o.append("{ op: \"add_step\", event: ");
            push_q(&mut o, event.as_str());
            o.append(", id: ");
            push_q(&mut o, id.as_str());
            o.append(" }");
        },
        SemanticPatchOp::AddBlock { kind, name, items } => {
            o.append("{ op: \"add_block\", kind: ");
            push_q(&mut o, kind.as_str());
            o.append(", name: ");
            push_q(&mut o, name.as_str());
            o.append(", items: [");
            push_quoted_list(&mut o, items);
            o.append("] }");
        },
        SemanticPatchOp::RemoveBlock { kind, name } => {
            o.append("{ op: \"remove_block\", kind: ");
            push_q(&mut o, kind.as_str());
            o.append(", name: ");
            push_q(&mut o, name.as_str());
            o.append(" }");
        },
        SemanticPatchOp::ModifyField { block_path, field_name, value } => {
            o.append("{ op: \"modify_field\", block_path: [");
            let p = render_block_path(block_path);
            o.append(p.as_str());
            o.append("], field_name: ");
            push_q(&mut o, field_name.as_str());
            o.append(", value: ");
            push_q(&mut o, value.as_str());
            o.append(" }");
        },
        SemanticPatchOp::RemoveField { block_path, field_name } => {
            o.append("{ op: \"remove_field\", block_path: [");
            let p = render_block_path(block_path);
            o.append(p.as_str());
            o.append("], field_name: ");
            push_q(&mut o, field_name.as_str());
            o.append(" }");
        },
        SemanticPatchOp::ReorderItems { block_path, new_order } => {
            o.append("{ op: \"reorder_items\", block_path: [");
            let p = render_block_path(block_path);
            o.append(p.as_str());
            o.append("], new_order: [");
            push_quoted_list(&mut o, new_order);
            o.append("] }");
        },
    }
    assert(o@ =~= op_map_text(*op));
    o
}

/// A `revision N { ... }` entry at two levels of indentation.
/// The op lines of a revision entry.
pub open spec fn op_lines(ops: Seq<SemanticPatchOp>) -> Seq<char>
    decreases ops.len(),
{
    if ops.len() == 0 {
        seq![]
    } else {
        op_lines(ops.drop_last()) + "        "@ + op_map_text(ops.last()) + ",\n"@
    }
}

/// A `revision N { ... }` entry at two levels of indentation.
pub open spec fn entry_text(rev: RevisionSummary) -> Seq<char> {
    "    "@ + "revision "@ + decimal_text(rev.revision_number as nat) + " {\n"@ + "      "@ + "base_hash: "@ + match rev.base_hash {
        Some(h) => spec_quote_string(h@),
        None => "null"@,
    } + "\n"@ + "      "@ + "result_hash: "@ + spec_quote_string(rev.result_hash@) + "\n"@ + "      "@ + "ops: [\n"@ + op_lines(
        rev.ops@,
    ) + "      "@ + "]\n"@ + "      "@ + "reason: "@ + spec_quote_string(rev.reason@) + "\n"@ + match rev.author {
        Some(a) => "      "@ + "author: "@ + spec_quote_string(a@) + "\n"@,
        None => seq![],
    } + "    "@ + "}\n"@
}

fn render_revision_entry(rev: &RevisionSummary) -> (r: String)
    ensures
        r@ == entry_text(*rev),
{
    let indent = "    ";
    let inner = "      ";
    let op_indent = "        ";
    let mut out = owned(indent);
    out.append("revision ");
    let n = u64_text(rev.revision_number);
    out.append(n.as_str());
    out.append(" {\n");
    out.append(inner);
    out.append("base_hash: ");
    match &rev.base_hash {
        Some(h) => push_q(&mut out, h.as_str()),
        None => out.append("null"),
    }
    out.append("\n");
    out.append(inner);
    out.append("result_hash: ");
    push_q(&mut out, rev.result_hash.as_str());
    out.append("\n");
    out.append(inner);
    out.append("ops: [\n");
    let ghost head = out@;
    let mut i: usize = 0;
    assert(rev.ops@.take(0) =~= Seq::<SemanticPatchOp>::empty());
    assert(out@ =~= head + op_lines(rev.ops@.take(0)));
    while i < rev.ops.len()
        invariant
            i <= rev.ops@.len(),
            op_indent@ == "        "@,
            out@ == head + op_lines(rev.ops@.take(i as int)),
        decreases rev.ops@.len() - i,
    {
        let ghost t = rev.ops@.take(i + 1);
        assert(t.drop_last() =~= rev.ops@.take(i as int));
        assert(t.last() == rev.ops@[i as int]);
        out.append(op_indent);
        let m = render_op_map(&rev.ops[i]);
        out.append(m.as_str());
        out.append(",\n");
        assert(out@ =~= head + op_lines(t));
        i = i + 1;
    }
    assert(rev.ops@.take(i as int) =~= rev.ops@);
    out.append(inner);
    out.append("]\n");
    out.append(inner);
    out.append("reason: ");
    push_q(&mut out, rev.reason.as_str());
    out.append("\n");
    match &rev.author {
        Some(a) => {
            out.append(inner);
            out.append("author: ");
            push_q(&mut out, a.as_str());
            out.append("\n");
        },
        None => {},
    }
    out.append(indent);
    out.append("}\n");
    assert(out@ =~= entry_text(*rev));
    out
}

/// The byte position of the last `}` before `span.end` (clamped to the
/// source), split there.
/// The end of `span`, clamped to the source.
pub open spec fn clamp_end(source: &str, span: Span) -> int {
    if span.end < source.spec_bytes().len() {
        span.end as int
    } else {
        source.spec_bytes().len() as int
    }
}

/// `a` and `b` are `source` split at the last `}` before the end of `span`.
pub open spec fn split_ok(source: &str, span: Span, a: &str, b: &str) -> bool {
    let bs = source.spec_bytes();
    let end = clamp_end(source, span);
    let k = a.spec_bytes().len() as int;
    &&& a@ + b@ == source@
    &&& a.spec_bytes() == bs.subrange(0, k)
    &&& b.spec_bytes() == bs.subrange(k, bs.len() as int)
    &&& k < end && bs[k] == 0x7du8
    &&& forall|j: int| k < j < end ==> bs[j] != 0x7du8
}

/// No `}` stands before the end of `span`.
pub open spec fn no_brace(source: &str, span: Span) -> bool {
    forall|j: int| 0 <= j < clamp_end(source, span) ==> source.spec_bytes()[j] != 0x7du8
}

fn split_at_close_brace<'s>(source: &'s str, span: Span) -> (r: Option<(&'s str, &'s str)>)
    ensures
        match r {
            Some((a, b)) => split_ok(source, span, a, b),
            None => no_brace(source, span),
        },
{
    let bytes = source.as_bytes();
    let n = bytes.len();
    let end = if span.end < n {
        span.end
    } else {
        n
    };
    let mut i: usize = end;
    while i > 0
        invariant
            i <= end <= n == bytes@.len(),
            bytes@ == source.spec_bytes(),
            end as int == (if span.end < n { span.end as int } else { n as int }),
            forall|j: int| i <= j < end ==> bytes@[j] != 0x7du8,
        decreases i,
    {
        if bytes[i - 1] == 0x7du8 {
            let k = i - 1;
            proof {
                vstd::utf8::encode_utf8_valid_utf8(source@);
                vstd::utf8::is_char_boundary_iff_not_is_continuation_byte(bytes@, k as int);
            }
            let (a, b) = source.split_at(k);
            proof {
                vstd::utf8::decode_utf8_split(source.spec_bytes(), k as int);
                vstd::utf8::encode_utf8_decode_utf8(source@);
                vstd::utf8::encode_utf8_decode_utf8(a@);
                vstd::utf8::encode_utf8_decode_utf8(b@);
            }
            return Some((a, b));
        }
        i = i - 1;
    }
    None
}

/// The text ends with a newline.
pub open spec fn ends_nl(bs: Seq<u8>) -> bool {
    bs.len() > 0 && bs.last() == 0x0au8
}

fn ends_with_newline(s: &str) -> (r: bool)
    ensures
        r == ends_nl(s.spec_bytes()),
{
    let bytes = s.as_bytes();
    bytes.len() > 0 && bytes[bytes.len() - 1] == 0x0au8
}

/// The source with `revisions` appended inside the existing `revisions`
/// block, or in a new one at the end of the slice.
/// The entries of `revs`, in order.
pub open spec fn entries_text(revs: Seq<RevisionSummary>) -> Seq<char>
    decreases revs.len(),
{
    if revs.len() == 0 {
        seq![]
    } else {
        entries_text(revs.drop_last()) + entry_text(revs.last())
    }
}

/// `before`, a newline unless it ends with one, then `mid`, then `after`.
pub open spec fn joined(before: &str, mid: Seq<char>, after: &str) -> Seq<char> {
    before@ + (if ends_nl(before.spec_bytes()) {
        seq![]
    } else {
        "\n"@
    }) + mid + after@
}

fn render_source_with_appended_revisions(
    source: &str,
    file: &File,
    revisions_span: Option<Span>,
    revisions: &Vec<RevisionSummary>,
) -> (r: Result<String, Diagnostic>)
    ensures
        match revisions_span {
            Some(span) => match r {
                Ok(t) => exists|a: &str, b: &str| split_ok(source, span, a, b) && t@ == joined(a, entries_text(revisions@), b),
                Err(_) => no_brace(source, span),
            },
            None => match file.slice {
                None => r is Err,
                Some(sl) => match r {
                    Ok(t) => exists|a: &str, b: &str|
                        split_ok(source, sl.span, a, b) && t@ == joined(
                            a,
                            "\n  revisions {\n"@ + entries_text(revisions@) + "  }\n"@,
                            b,
                        ),
                    Err(_) => no_brace(source, sl.span),
                },
            },
        },
{
    let mut entries = String::new();
    let mut i: usize = 0;
    assert(revisions@.take(0) =~= Seq::<RevisionSummary>::empty());
    assert(entries@ =~= entries_text(revisions@.take(0)));
    while i < revisions.len()
        invariant
            i <= revisions@.len(),
            entries@ == entries_text(revisions@.take(i as int)),
        decreases revisions@.len() - i,
    {
        let ghost t = revisions@.take(i + 1);
        assert(t.drop_last() =~= revisions@.take(i as int));
        assert(t.last() == revisions@[i as int]);
        let e = render_revision_entry(&revisions[i]);
        entries.append(e.as_str());
        i = i + 1;
    }
    assert(revisions@.take(i as int) =~= revisions@);
    match revisions_span {
        Some(span) => {
            let (before, after) = match split_at_close_brace(source, span) {
                Some(p) => p,
                None => {
                    return Err(
                        Diagnostic::error(
                            codes::E_REV_REPLAY_FAILED,
                            span,
                            owned("could not locate closing brace for existing revisions block"),
                        ),
                    );
                },
            };
            let mut out = owned(before);
            if !ends_with_newline(before) {
                out.append("\n");
            }
            out.append(entries.as_str());
            out.append(after);
            assert(out@ =~= joined(before, entries_text(revisions@), after));
            Ok(out)
        },
        None => {
            let slice = match &file.slice {
                Some(s) => s,
                None => {
                    return Err(
                        Diagnostic::error(
                            codes::E_REV_REPLAY_FAILED,
                            file.span,
                            owned("cannot append revisions without a slice declaration"),
                        ),
                    );
                },
            };
            let (before, after) = match split_at_close_brace(source, slice.span) {
                Some(p) => p,
                None => {
                    return Err(
                        Diagnostic::error(
                            codes::E_REV_REPLAY_FAILED,
                            slice.span,
                            owned("could not locate closing brace for slice"),
                        ),
                    );
                },
            };
            let mut block = owned("\n  revisions {\n");
            block.append(entries.as_str());
            block.append("  }\n");
            let mut out = owned(before);
            if !ends_with_newline(before) {
                out.append("\n");
            }
            out.append(block.as_str());
            out.append(after);
            assert(out@ =~= joined(before, "\n  revisions {\n"@ + entries_text(revisions@) + "  }\n"@, after));
            Ok(out)
        },
    }
}

// ---------------------------------------------------------------------------
// Synthesis
// ---------------------------------------------------------------------------

/// The items of a slice are few enough for every projection count to fit.
fn projection_counts_fit(slice: &SliceDecl) -> (r: bool)
    ensures
        r == (crate::analysis::revisions::items_weight(slice.items@) <= usize::MAX - slice.imports@.len()),
{
    let budget: usize = usize::MAX - slice.imports.len();
    let mut w: usize = 0;
    let mut i: usize = 0;
    while i < slice.items.len()
        invariant
            i <= slice.items@.len(),
            budget == usize::MAX - slice.imports@.len(),
            w == crate::analysis::revisions::items_weight(slice.items@.subrange(0, i as int)),
            w <= budget,
        decreases slice.items@.len() - i,
    {
        assert(slice.items@.subrange(0, i as int + 1).drop_last() =~= slice.items@.subrange(0, i as int));
        let steps: usize = match &slice.items[i] {
            BlockItem::Block(b) => {
                let mut s: usize = 0;
                let mut k: usize = 0;
                while k < b.items.len()
                    invariant
                        k <= b.items@.len(),
                        s == crate::analysis::revisions::steps_in(b.items@.subrange(0, k as int)),
                        s <= k,
                    decreases b.items@.len() - k,
                {
                    assert(b.items@.subrange(0, k as int + 1).drop_last() =~= b.items@.subrange(0, k as int));
                    match &b.items[k] {
                        BlockItem::Block(st) => {
                            if kind_is(st, "step") {
                                s = s + 1;
                            }
                        },
                        _ => {},
                    }
                    k = k + 1;
                }
                assert(b.items@.subrange(0, b.items@.len() as int) =~= b.items@);
                s
            },
            _ => 0,
        };
        if w >= budget || steps > budget - w - 1 {
            proof {
                let t = slice.items@.subrange(0, i as int + 1);
                assert(crate::analysis::revisions::items_weight(t) == w + 1 + steps);
                lemma_weight_grows(slice.items@, i as int + 1);
            }
            return false;
        }
        w = w + 1 + steps;
        i = i + 1;
    }
    assert(slice.items@.subrange(0, slice.items@.len() as int) =~= slice.items@);
    true
}

/// The weight of a prefix of the items bounds the weight of all of them.
proof fn lemma_weight_grows(items: Seq<BlockItem>, n: int)
    requires
        0 <= n <= items.len(),
    ensures
        crate::analysis::revisions::items_weight(items.subrange(0, n)) <= crate::analysis::revisions::items_weight(items),
    decreases items.len() - n,
{
    if n < items.len() {
        lemma_weight_grows(items, n + 1);
        assert(items.subrange(0, n + 1).drop_last() =~= items.subrange(0, n));
    } else {
        assert(items.subrange(0, n) =~= items);
    }
}

/// The projection counts of a slice, when they fit.
fn projection_summary(slice: &SliceDecl) -> (r: Option<ProjectionSummary>)
    ensures
        r == if crate::analysis::revisions::items_weight(slice.items@) <= usize::MAX - slice.imports@.len() {
            Some(
                crate::analysis::revisions::count_items(
                    ProjectionSummary { imports: slice.imports@.len() as usize, ..zero_projection() },
                    slice.items@,
                ),
            )
        } else {
            None::<ProjectionSummary>
        },
{
    if !projection_counts_fit(slice) {
        return None;
    }
    let mut p = ProjectionSummary::default();
    p.imports = slice.imports.len();
    let mut sink: Vec<SemanticPatchOp> = Vec::new();
    collect_projection(slice, &mut p, &mut sink);
    Some(p)
}

fn clone_summaries(revs: &Vec<InlineRevision>) -> (r: Vec<RevisionSummary>)
    ensures
        r@.len() == revs@.len(),
{
    let mut out: Vec<RevisionSummary> = Vec::new();
    let mut i: usize = 0;
    while i < revs.len()
        invariant
            i <= revs@.len(),
            out@.len() == i,
        decreases revs@.len() - i,
    {
        out.push(revs[i].summary.clone());
        i = i + 1;
    }
    out
}

/// What the synthesis of a parsed, error-free source reports.
pub open spec fn synthesis_ok(source: Seq<char>, file: File, prior_last: Option<(u64, Seq<char>)>, s: RevisionSynthesis) -> bool {
    let current = spec_source_sha256(spec_canonical_projection(file));
    &&& s.report.schema_version@ == REVISION_MANIFEST_VERSION@
    &&& s.report.no_op != s.report.appended
    &&& s.report.file_size == vstd::utf8::encode_utf8(s.new_source@).len()
    &&& s.report.no_op ==> {
        &&& s.new_source@ == source
        &&& s.report.message@ == "no semantic change - no revision appended"@
        &&& prior_last matches Some((_, h)) && h == current
    }
    &&& s.report.appended ==> {
        &&& s.report.revisions@.len() > 0
        &&& s.report.revisions@.last().result_hash@ == current
        &&& match prior_last {
            Some((n, h)) => {
                &&& s.report.revisions@.len() == 1
                &&& s.report.revisions@[0].revision_number == n + 1
                &&& s.report.revisions@[0].base_revision == Some(n)
                &&& (s.report.revisions@[0].base_hash matches Some(b) && b@ == h)
            },
            None => {
                &&& s.report.revisions@.len() == 2
                &&& s.report.revisions@[0].revision_number == 1
                &&& s.report.revisions@[0].base_hash is None
                &&& s.report.revisions@[1].revision_number == 2
                &&& s.report.revisions@[1].base_revision == Some(1u64)
                &&& (s.report.revisions@[1].base_hash matches Some(b) && b@ == s.report.revisions@[0].result_hash@)
            },
        }
    }
}

/// Append the next revision to `source` and return the rewritten text.
///
/// Refused when the source does not parse, when its chain is invalid (a
/// stale terminal hash aside), when the chain does not replay, when no
/// semantic op explains the change, or when the rewritten source does not
/// replay; a no-op (nothing appended) when the last revision already is
/// the current projection.
pub fn synthesize_revision_source(
    source: &str,
    source_path: Option<String>,
    reason: String,
    author: Option<String>,
) -> (r: Result<RevisionSynthesis, RevisionSynthesisError>)
    ensures
        r matches Ok(s) ==> exists|f: File, prior: Option<(u64, Seq<char>)>|
            crate::ast::file_ok(source.spec_bytes(), f) && #[trigger] synthesis_ok(source@, f, prior, s),
        r matches Err(e) ==> e.diagnostics@.len() > 0,
{
    let parsed = parser::parse(source);
    let mut diagnostics = parsed.diagnostics;
    if has_error(&diagnostics) {
        return Err(synthesis_error("cannot synthesize revision for a syntactically invalid .memspec file", diagnostics));
    }
    let file = parsed.file;
    synthesize_for_file(source, &file, diagnostics, source_path, reason, author)
}

/// [`synthesize_revision_source`] once the source has parsed without
/// errors into `file` (with `diagnostics`, none of them errors).
pub fn synthesize_for_file(
    source: &str,
    file: &File,
    diagnostics: Vec<Diagnostic>,
    source_path: Option<String>,
    reason: String,
    author: Option<String>,
) -> (r: Result<RevisionSynthesis, RevisionSynthesisError>)
    ensures
        r matches Ok(s) ==> exists|prior: Option<(u64, Seq<char>)>| synthesis_ok(source@, *file, prior, s),
        r matches Err(e) ==> e.diagnostics@.len() > 0,
{
    let mut diagnostics = diagnostics;
    let chain = collect_inline_revisions(file);
    let mut chain_diags = chain.diagnostics;
    diagnostics.append(&mut chain_diags);
    validate_inline_revision_chain(file, &chain.revisions, TerminalCheck::AllowCurrentProjectionMismatch, &mut diagnostics);
    // Drop terminal-mismatch diagnostics: the edit is what this appends.
    let mut kept: Vec<Diagnostic> = Vec::new();
    let mut i: usize = 0;
    while i < diagnostics.len()
        invariant
            i <= diagnostics@.len(),
        decreases diagnostics@.len() - i,
    {
        if !str_eq(diagnostics[i].code, codes::E_REV_TERMINAL_MISMATCH) {
            kept.push(diagnostics[i].clone());
        }
        i = i + 1;
    }
    if has_error(&kept) {
        return Err(synthesis_error("existing revision chain is invalid", kept));
    }
    let projection = canonical_source_projection(file);
    let projection_hash = source_sha256(projection.as_str());
    let summary = match &file.slice {
        Some(slice) => match projection_summary(slice) {
            Some(p) => p,
            None => {
                let d = Diagnostic::error(codes::E_REV_REPLAY_FAILED, slice.span, owned("slice is too large to count"));
                return Err(synthesis_error("existing revision chain is invalid", vec![d]));
            },
        },
        None => ProjectionSummary::default(),
    };
    let revisions = &chain.revisions;
    let n = revisions.len();
    let prior: Option<(u64, String)> = if n > 0 {
        Some((revisions[n - 1].summary.revision_number, owned(revisions[n - 1].summary.result_hash.as_str())))
    } else {
        None
    };
    let ghost prior_v: Option<(u64, Seq<char>)> = match prior {
        Some((a, b)) => Some((a, b@)),
        None => None,
    };
    if n > 0 && str_eq(revisions[n - 1].summary.result_hash.as_str(), projection_hash.as_str()) {
        let report = RevisionAppendReport {
            schema_version: owned(REVISION_MANIFEST_VERSION),
            source_path,
            slice: crate::analysis::revisions::slice_slug_text(file),
            appended: false,
            no_op: true,
            message: owned("no semantic change - no revision appended"),
            revisions: clone_summaries(revisions),
            projection: summary,
            file_size: source.as_bytes().len(),
        };
        let s = RevisionSynthesis { new_source: owned(source), report };
        assert(synthesis_ok(source@, *file, prior_v, s));
        return Ok(s);
    }
    let reason = if reason.as_str().is_empty() {
        owned("automated edit via watcher")
    } else {
        reason
    };
    let previous_projection = if n == 0 {
        empty_projection_for_file(file)
    } else {
        match replay_revisions(file, revisions) {
            Ok(p) => p,
            Err(d) => {
                return Err(synthesis_error("existing revision chain failed replay validation", vec![d]));
            },
        }
    };
    let ops = match diff_projections(previous_projection.as_str(), projection.as_str()) {
        Ok(ops) => ops,
        Err(e) => {
            if e.diagnostics.len() == 0 {
                let d = Diagnostic::error(codes::E_REV_DIFF_VOCABULARY_HOLE, file.span, owned(e.message.as_str()));
                return Err(synthesis_error(e.message.as_str(), vec![d]));
            }
            return Err(e);
        },
    };
    if ops.len() == 0 {
        let d = Diagnostic::error(
            codes::E_REV_DIFF_NULL_BUT_TEXT_DIFFERS,
            file.span,
            owned("structural diff produced no ops but the projection hash changed"),
        ).with_hint(owned("extend the v0 semantic patch vocabulary before appending this revision"));
        return Err(synthesis_error("semantic diff did not explain the changed source projection", vec![d]));
    }
    let mut appended: Vec<RevisionSummary> = Vec::new();
    if n == 0 {
        let genesis_source = empty_projection_for_file(file);
        let genesis_hash = source_sha256(genesis_source.as_str());
        let genesis_ops = vec![
            SemanticPatchOp::GenesisFromMaterializedView {
                source_hash: owned(genesis_hash.as_str()),
                byte_len: genesis_source.as_str().as_bytes().len(),
                line_count: line_count(genesis_source.as_str()),
            },
        ];
        appended.push(
            RevisionSummary {
                revision_number: 1,
                base_revision: None,
                base_hash: None,
                result_hash: owned(genesis_hash.as_str()),
                patch_format_version: owned(PATCH_FORMAT_VERSION),
                reason: owned("genesis baseline before first synthesized edit"),
                author: author.clone(),
                ops: genesis_ops,
            },
        );
        appended.push(
            RevisionSummary {
                revision_number: 2,
                base_revision: Some(1),
                base_hash: Some(genesis_hash),
                result_hash: owned(projection_hash.as_str()),
                patch_format_version: owned(PATCH_FORMAT_VERSION),
                reason,
                author,
                ops,
            },
        );
    } else {
        let last = &revisions[n - 1];
        if last.summary.revision_number == u64::MAX {
            let d = Diagnostic::error(codes::E_REV_NUMBER_GAP, last.span, owned("revision number is at its maximum"));
            return Err(synthesis_error("existing revision chain is invalid", vec![d]));
        }
        appended.push(
            RevisionSummary {
                revision_number: last.summary.revision_number + 1,
                base_revision: Some(last.summary.revision_number),
                base_hash: Some(owned(last.summary.result_hash.as_str())),
                result_hash: owned(projection_hash.as_str()),
                patch_format_version: owned(PATCH_FORMAT_VERSION),
                reason,
                author,
                ops,
            },
        );
    }
    let new_source = match render_source_with_appended_revisions(source, file, chain.revisions_block_span, &appended) {
        Ok(s) => s,
        Err(d) => {
            return Err(synthesis_error("failed to render the appended revisions block", vec![d]));
        },
    };
    let replay_parse = parser::parse(new_source.as_str());
    let mut replay_diagnostics = replay_parse.diagnostics;
    if !has_error(&replay_diagnostics) {
        let inline = collect_inline_revisions(&replay_parse.file);
        let mut more = inline.diagnostics;
        replay_diagnostics.append(&mut more);
        validate_inline_revision_chain(
            &replay_parse.file,
            &inline.revisions,
            TerminalCheck::RequireCurrentProjection,
            &mut replay_diagnostics,
        );
    }
    if has_error(&replay_diagnostics) {
        return Err(synthesis_error("freshly rendered revision chain failed replay validation", replay_diagnostics));
    }
    let last_number = appended[appended.len() - 1].revision_number;
    let num = u64_text(last_number);
    let file_size = new_source.as_str().as_bytes().len();
    let report = RevisionAppendReport {
        schema_version: owned(REVISION_MANIFEST_VERSION),
        source_path,
        slice: crate::analysis::revisions::slice_slug_text(file),
        appended: true,
        no_op: false,
        message: cat("appended revision ", num.as_str()),
        revisions: appended,
        projection: summary,
        file_size,
    };
    let s = RevisionSynthesis { new_source, report };
    assert(synthesis_ok(source@, *file, prior_v, s));
    Ok(s)
}

} // verus!
