//! Sorted name indexes over a block list: for one block kind, each declared
//! name once, in `str` order, with the position of the last block of that
//! kind carrying it (a later declaration replaces an earlier one).

use vstd::prelude::*;

use crate::analysis::nav::{block_name_str, kind_is, spec_block_name_ident};
use crate::ast::BlockItem;
use crate::text::{lemma_name_lt_order, name_lt, str_eq, str_lt};

verus! {

/// `it` is a block of kind `kind` with an identifier name.
pub open spec fn is_named(it: BlockItem, kind: Seq<char>) -> bool {
    &&& it is Block
    &&& it->Block_0.kind.name@ == kind
    &&& spec_block_name_ident(it->Block_0) is Some
}

/// The identifier name of a named block item.
pub open spec fn item_name(it: BlockItem) -> Seq<char> {
    spec_block_name_ident(it->Block_0)->0.name@
}

/// Position of the last `kind` block named `n`.
pub open spec fn last_decl(items: Seq<BlockItem>, kind: Seq<char>, n: Seq<char>) -> Option<int>
    decreases items.len(),
{
    if items.len() == 0 {
        None
    } else if is_named(items.last(), kind) && item_name(items.last()) == n {
        Some(items.len() - 1)
    } else {
        last_decl(items.drop_last(), kind, n)
    }
}

/// Names strictly increase along `v`.
pub open spec fn sorted_by_name(v: Seq<(&str, usize)>) -> bool {
    forall|i: int, j: int| 0 <= i < j < v.len() ==> name_lt(#[trigger] v[i].0@, #[trigger] v[j].0@)
}

/// `v` indexes the `kind` blocks of `items`: sorted, every entry points at
/// the last block of its name, and every declared name has an entry.
pub open spec fn indexes(items: Seq<BlockItem>, kind: Seq<char>, v: Seq<(&str, usize)>) -> bool {
    &&& sorted_by_name(v)
    &&& forall|i: int|
        0 <= i < v.len() ==> last_decl(items, kind, (#[trigger] v[i]).0@) == Some(v[i].1 as int)
    &&& forall|n: Seq<char>|
        #[trigger] last_decl(items, kind, n) is Some ==> exists|i: int|
            0 <= i < v.len() && (#[trigger] v[i]).0@ == n
}

pub proof fn lemma_last_decl(items: Seq<BlockItem>, kind: Seq<char>, n: Seq<char>)
    ensures
        last_decl(items, kind, n) matches Some(k) ==> 0 <= k < items.len() && is_named(items[k], kind)
            && item_name(items[k]) == n,
    decreases items.len(),
{
    if items.len() > 0 {
        lemma_last_decl(items.drop_last(), kind, n);
    }
}

proof fn lemma_last_decl_step(items: Seq<BlockItem>, kind: Seq<char>, i: int)
    requires
        0 <= i < items.len(),
    ensures
        forall|n: Seq<char>|
            #[trigger] last_decl(items.subrange(0, i + 1), kind, n) == if is_named(items[i], kind)
                && item_name(items[i]) == n {
                Some(i)
            } else {
                last_decl(items.subrange(0, i), kind, n)
            },
{
    assert(items.subrange(0, i + 1).drop_last() =~= items.subrange(0, i));
}

/// Record `name` at `pos`, replacing an entry of the same name.
fn upsert<'a>(v: &mut Vec<(&'a str, usize)>, name: &'a str, pos: usize)
    requires
        sorted_by_name(old(v)@),
    ensures
        sorted_by_name(final(v)@),
        exists|j: int| 0 <= j < final(v)@.len() && (#[trigger] final(v)@[j]) == (name, pos),
        forall|j: int|
            0 <= j < final(v)@.len() ==> (#[trigger] final(v)@[j]).0@ == name@ && final(v)@[j].1
                == pos || (final(v)@[j].0@ != name@ && exists|k: int|
                0 <= k < old(v)@.len() && old(v)@[k] == final(v)@[j]),
        forall|k: int|
            0 <= k < old(v)@.len() && (#[trigger] old(v)@[k]).0@ != name@ ==> exists|j: int|
                0 <= j < final(v)@.len() && final(v)@[j] == old(v)@[k],
{
    let mut p: usize = 0;
    while p < v.len() && str_lt(v[p].0, name)
        invariant
            p <= v@.len(),
            v@ == old(v)@,
            forall|j: int| 0 <= j < p ==> name_lt((#[trigger] v@[j]).0@, name@),
        decreases v@.len() - p,
    {
        p = p + 1;
    }
    let ghost o = v@;
    if p < v.len() && str_eq(v[p].0, name) {
        v.set(p, (name, pos));
        assert(v@[p as int] == (name, pos));
        assert forall|j: int| 0 <= j < v@.len() && j != p implies v@[j] == o[j] && v@[j].0@ != name@ by {
            if j < p {
                lemma_name_lt_order(o[j].0@, name@, name@);
            } else {
                lemma_name_lt_order(o[p as int].0@, o[j].0@, name@);
            }
        }
        assert forall|k: int| 0 <= k < o.len() && (#[trigger] o[k]).0@ != name@ implies exists|j: int|
            0 <= j < v@.len() && v@[j] == o[k] by {
            assert(k != p);
            assert(v@[k] == o[k]);
        }
    } else {
        proof {
            if p < o.len() {
                lemma_name_lt_order(name@, o[p as int].0@, name@);
            }
        }
        v.insert(p, (name, pos));
        assert(v@ == o.insert(p as int, (name, pos)));
        assert(v@[p as int] == (name, pos));
        assert forall|i: int, j: int| 0 <= i < j < v@.len() implies name_lt(#[trigger] v@[i].0@, #[trigger] v@[j].0@) by {
            if j < p {
            } else if j == p {
                assert(v@[i] == o[i]);
            } else if i < p {
                assert(v@[i] == o[i]);
                assert(v@[j] == o[j - 1]);
                lemma_name_lt_order(o[i].0@, name@, o[p as int].0@);
                if j - 1 > p {
                    lemma_name_lt_order(o[i].0@, o[p as int].0@, o[j - 1].0@);
                }
            } else if i == p {
                assert(v@[j] == o[j - 1]);
                if j - 1 > p {
                    lemma_name_lt_order(name@, o[p as int].0@, o[j - 1].0@);
                }
            } else {
                assert(v@[i] == o[i - 1]);
                assert(v@[j] == o[j - 1]);
            }
        }
        assert forall|j: int| 0 <= j < v@.len() && j != p implies v@[j].0@ != name@ && exists|k: int|
            0 <= k < o.len() && o[k] == v@[j] by {
            if j < p {
                assert(v@[j] == o[j]);
                lemma_name_lt_order(o[j].0@, name@, name@);
            } else {
                assert(v@[j] == o[j - 1]);
                if j - 1 > p {
                    lemma_name_lt_order(name@, o[p as int].0@, o[j - 1].0@);
                }
                lemma_name_lt_order(name@, o[j - 1].0@, name@);
            }
        }
        assert forall|k: int| 0 <= k < o.len() && (#[trigger] o[k]).0@ != name@ implies exists|j: int|
            0 <= j < v@.len() && v@[j] == o[k] by {
            if k < p {
                assert(v@[k] == o[k]);
            } else {
                assert(v@[k + 1] == o[k]);
            }
        }
    }
}

/// Index the `kind` blocks of `items`.
pub fn build_index<'a>(items: &'a Vec<BlockItem>, kind: &str) -> (r: Vec<(&'a str, usize)>)
    ensures
        indexes(items@, kind@, r@),
{
    let mut v: Vec<(&'a str, usize)> = Vec::new();
    let mut i: usize = 0;
    while i < items.len()
        invariant
            i <= items@.len(),
            indexes(items@.subrange(0, i as int), kind@, v@),
        decreases items@.len() - i,
    {
        proof {
            lemma_last_decl_step(items@, kind@, i as int);
        }
        let ghost o = v@;
        let ghost pre = items@.subrange(0, i as int);
        let ghost nxt = items@.subrange(0, i as int + 1);
        let mut named: Option<&'a str> = None;
        match &items[i] {
            BlockItem::Block(b) => {
                if kind_is(b, kind) {
                    named = block_name_str(b);
                }
            },
            _ => {},
        }
        match named {
            Some(name) => {
                assert(is_named(items@[i as int], kind@) && item_name(items@[i as int]) == name@);
                upsert(&mut v, name, i);
                assert forall|j: int| 0 <= j < v@.len() implies last_decl(nxt, kind@, (#[trigger] v@[j]).0@)
                    == Some(v@[j].1 as int) by {
                    if v@[j].0@ != name@ {
                        let k = choose|k: int| 0 <= k < o.len() && o[k] == v@[j];
                        assert(last_decl(pre, kind@, o[k].0@) == Some(o[k].1 as int));
                    }
                }
                assert forall|n: Seq<char>| #[trigger] last_decl(nxt, kind@, n) is Some implies exists|j: int|
                    0 <= j < v@.len() && (#[trigger] v@[j]).0@ == n by {
                    if n != name@ {
                        assert(last_decl(pre, kind@, n) is Some);
                        let k = choose|k: int| 0 <= k < o.len() && (#[trigger] o[k]).0@ == n;
                        assert(o[k].0@ != name@);
                    }
                }
            },
            None => {
                assert(!is_named(items@[i as int], kind@));
                assert forall|j: int| 0 <= j < v@.len() implies last_decl(nxt, kind@, (#[trigger] v@[j]).0@)
                    == Some(v@[j].1 as int) by {
                    assert(last_decl(pre, kind@, v@[j].0@) == Some(v@[j].1 as int));
                }
                assert forall|n: Seq<char>| #[trigger] last_decl(nxt, kind@, n) is Some implies exists|j: int|
                    0 <= j < v@.len() && (#[trigger] v@[j]).0@ == n by {
                    assert(last_decl(pre, kind@, n) is Some);
                }
            },
        }
        i = i + 1;
    }
    assert(items@.subrange(0, items@.len() as int) =~= items@);
    v
}

/// The position recorded for `name`, if any.
pub fn index_lookup(v: &Vec<(&str, usize)>, name: &str) -> (r: Option<usize>)
    ensures
        match r {
            Some(k) => exists|j: int| 0 <= j < v@.len() && (#[trigger] v@[j]).0@ == name@ && v@[j].1 == k,
            None => forall|j: int| 0 <= j < v@.len() ==> (#[trigger] v@[j]).0@ != name@,
        },
{
    let mut j: usize = 0;
    while j < v.len()
        invariant
            j <= v@.len(),
            forall|q: int| 0 <= q < j ==> (#[trigger] v@[q]).0@ != name@,
        decreases v@.len() - j,
    {
        if str_eq(v[j].0, name) {
            return Some(v[j].1);
        }
        j = j + 1;
    }
    None
}

/// What [`index_lookup`] answers on an index: the last declaration.
pub proof fn lemma_lookup_is_last_decl(
    items: Seq<BlockItem>,
    kind: Seq<char>,
    v: Seq<(&str, usize)>,
    name: Seq<char>,
    r: Option<usize>,
)
    requires
        indexes(items, kind, v),
        match r {
            Some(k) => exists|j: int| 0 <= j < v.len() && (#[trigger] v[j]).0@ == name && v[j].1 == k,
            None => forall|j: int| 0 <= j < v.len() ==> (#[trigger] v[j]).0@ != name,
        },
    ensures
        match r {
            Some(k) => last_decl(items, kind, name) == Some(k as int),
            None => last_decl(items, kind, name) is None,
        },
{
    match r {
        Some(k) => {
            let j = choose|j: int| 0 <= j < v.len() && (#[trigger] v[j]).0@ == name && v[j].1 == k;
            assert(last_decl(items, kind, v[j].0@) == Some(v[j].1 as int));
        },
        None => {
            if last_decl(items, kind, name) is Some {
                let j = choose|j: int| 0 <= j < v.len() && (#[trigger] v[j]).0@ == name;
            }
        },
    }
}

} // verus!
