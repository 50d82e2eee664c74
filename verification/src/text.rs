//! Small verified string helpers shared by the lexer, the analyzer and the
//! renderers: byte-exact string comparison, decimal rendering of integers,
//! and character-level appends.

use vstd::prelude::*;
use vstd::std_specs::iter::IteratorSpec;
use vstd::string::StringSliceAdditionalSpecFns;

verus! {

broadcast use vstd::utf8::encode_utf8_decode_utf8;

/// Appends one character to a string (std `String::push`).
/// Contract: the string's character sequence gains `c` at its end.
#[verifier::external_body]
pub fn push_char(s: &mut String, c: char)
    ensures
        final(s)@ == old(s)@.push(c),
{
    s.push(c);
}

/// Converts a Unicode scalar value to a `char` (std `char::from_u32`).
/// Contract: `Some(c)` exactly when `v` is a Unicode scalar value, and then
/// `c`'s code point is `v`.
#[verifier::external_body]
pub fn char_from_scalar(v: u32) -> (r: Option<char>)
    ensures
        (r is Some) <==> vstd::utf8::is_scalar(v),
        r matches Some(c) ==> c as u32 == v,
{
    char::from_u32(v)
}

/// Each byte read as the character with the same code point (ASCII and
/// Latin-1 reading).
pub open spec fn bytes_as_chars(bs: Seq<u8>) -> Seq<char> {
    bs.map_values(|b: u8| b as char)
}

/// Two strings are equal exactly when their characters are.
pub fn str_eq(a: &str, b: &str) -> (r: bool)
    ensures
        r == (a@ == b@),
{
    let ab = a.as_bytes();
    let bb = b.as_bytes();
    proof {
        vstd::utf8::encode_utf8_decode_utf8(a@);
        vstd::utf8::encode_utf8_decode_utf8(b@);
    }
    if ab.len() != bb.len() {
        return false;
    }
    let n = ab.len();
    let mut i: usize = 0;
    while i < n
        invariant
            n == ab@.len(),
            n == bb@.len(),
            ab@ == a.spec_bytes(),
            bb@ == b.spec_bytes(),
            0 <= i <= n,
            forall|j: int| 0 <= j < i ==> ab@[j] == bb@[j],
        decreases n - i,
    {
        if ab[i] != bb[i] {
            assert(ab@ != bb@);
            return false;
        }
        i = i + 1;
    }
    assert(ab@ =~= bb@);
    true
}

/// Byte-wise lexicographic order: `x` sorts strictly before `y`.
pub open spec fn bytes_lt(x: Seq<u8>, y: Seq<u8>) -> bool
    decreases x.len(),
{
    if y.len() == 0 {
        false
    } else if x.len() == 0 {
        true
    } else if x[0] != y[0] {
        x[0] < y[0]
    } else {
        bytes_lt(x.drop_first(), y.drop_first())
    }
}

/// `a` sorts strictly before `b` in the order of `str`'s `Ord` (byte-wise
/// lexicographic over the UTF-8 encoding).
pub fn str_lt(a: &str, b: &str) -> (r: bool)
    ensures
        r == bytes_lt(a.spec_bytes(), b.spec_bytes()),
{
    let ab = a.as_bytes();
    let bb = b.as_bytes();
    let mut i: usize = 0;
    assert(ab@.subrange(0, ab@.len() as int) =~= ab@);
    assert(bb@.subrange(0, bb@.len() as int) =~= bb@);
    while i < ab.len() && i < bb.len() && ab[i] == bb[i]
        invariant
            i <= ab@.len(),
            i <= bb@.len(),
            ab@ == a.spec_bytes(),
            bb@ == b.spec_bytes(),
            bytes_lt(ab@, bb@) == bytes_lt(ab@.subrange(i as int, ab@.len() as int), bb@.subrange(i as int, bb@.len() as int)),
        decreases ab@.len() - i,
    {
        proof {
            let xs = ab@.subrange(i as int, ab@.len() as int);
            let ys = bb@.subrange(i as int, bb@.len() as int);
            assert(xs.drop_first() =~= ab@.subrange(i as int + 1, ab@.len() as int));
            assert(ys.drop_first() =~= bb@.subrange(i as int + 1, bb@.len() as int));
        }
        i = i + 1;
    }
    assert(ab@.subrange(0, ab@.len() as int) =~= ab@);
    assert(bb@.subrange(0, bb@.len() as int) =~= bb@);
    if i == bb.len() {
        false
    } else if i == ab.len() {
        true
    } else {
        ab[i] < bb[i]
    }
}

/// `a` sorts strictly before `b` by the bytes of their UTF-8 encodings,
/// the order of `str`'s `Ord`.
pub open spec fn name_lt(a: Seq<char>, b: Seq<char>) -> bool {
    bytes_lt(vstd::utf8::encode_utf8(a), vstd::utf8::encode_utf8(b))
}

pub proof fn lemma_bytes_lt_irreflexive(x: Seq<u8>)
    ensures
        !bytes_lt(x, x),
    decreases x.len(),
{
    if x.len() > 0 {
        lemma_bytes_lt_irreflexive(x.drop_first());
    }
}

pub proof fn lemma_bytes_lt_transitive(x: Seq<u8>, y: Seq<u8>, z: Seq<u8>)
    requires
        bytes_lt(x, y),
        bytes_lt(y, z),
    ensures
        bytes_lt(x, z),
    decreases x.len(),
{
    if x.len() > 0 && y.len() > 0 && z.len() > 0 && x[0] == y[0] && y[0] == z[0] {
        lemma_bytes_lt_transitive(x.drop_first(), y.drop_first(), z.drop_first());
    }
}

pub proof fn lemma_bytes_lt_total(x: Seq<u8>, y: Seq<u8>)
    requires
        x != y,
    ensures
        bytes_lt(x, y) || bytes_lt(y, x),
    decreases x.len(),
{
    if x.len() == 0 && y.len() == 0 {
        assert(x =~= y);
    } else if x.len() > 0 && y.len() > 0 && x[0] == y[0] {
        if x.drop_first() == y.drop_first() {
            assert(x =~= seq![x[0]] + x.drop_first());
            assert(y =~= seq![y[0]] + y.drop_first());
        }
        lemma_bytes_lt_total(x.drop_first(), y.drop_first());
    }
}

pub proof fn lemma_bytes_lt_asymmetric(x: Seq<u8>, y: Seq<u8>)
    requires
        bytes_lt(x, y),
    ensures
        !bytes_lt(y, x),
{
    if bytes_lt(y, x) {
        lemma_bytes_lt_transitive(x, y, x);
        lemma_bytes_lt_irreflexive(x);
    }
}

/// `name_lt` is a strict total order on character sequences.
pub proof fn lemma_name_lt_order(a: Seq<char>, b: Seq<char>, c: Seq<char>)
    ensures
        !name_lt(a, a),
        a != b ==> name_lt(a, b) || name_lt(b, a),
        name_lt(a, b) ==> !name_lt(b, a),
        name_lt(a, b) && name_lt(b, c) ==> name_lt(a, c),
{
    let ea = vstd::utf8::encode_utf8(a);
    let eb = vstd::utf8::encode_utf8(b);
    let ec = vstd::utf8::encode_utf8(c);
    lemma_bytes_lt_irreflexive(ea);
    if a != b {
        vstd::utf8::encode_utf8_decode_utf8(a);
        vstd::utf8::encode_utf8_decode_utf8(b);
        lemma_bytes_lt_total(ea, eb);
    }
    if name_lt(a, b) {
        lemma_bytes_lt_asymmetric(ea, eb);
        if name_lt(b, c) {
            lemma_bytes_lt_transitive(ea, eb, ec);
        }
    }
}

/// `s` holds exactly the characters of the literal `lit`.
pub fn is_lit(s: &String, lit: &str) -> (r: bool)
    ensures
        r == (s@ == lit@),
{
    str_eq(s.as_str(), lit)
}

/// A new string with the characters of `s`.
pub fn owned(s: &str) -> (r: String)
    ensures
        r@ == s@,
{
    String::from_str(s)
}

/// `a` followed by `b`.
pub fn cat(a: &str, b: &str) -> (r: String)
    ensures
        r@ == a@ + b@,
{
    let mut r = String::from_str(a);
    r.append(b);
    r
}

/// `a`, `b`, `c` in sequence.
pub fn cat3(a: &str, b: &str, c: &str) -> (r: String)
    ensures
        r@ == a@ + b@ + c@,
{
    let mut r = String::from_str(a);
    r.append(b);
    r.append(c);
    r
}

/// `a`, `b`, `c`, `d` in sequence.
pub fn cat4(a: &str, b: &str, c: &str, d: &str) -> (r: String)
    ensures
        r@ == a@ + b@ + c@ + d@,
{
    let mut r = String::from_str(a);
    r.append(b);
    r.append(c);
    r.append(d);
    r
}

/// `a`, `b`, `c`, `d`, `e` in sequence.
pub fn cat5(a: &str, b: &str, c: &str, d: &str, e: &str) -> (r: String)
    ensures
        r@ == a@ + b@ + c@ + d@ + e@,
{
    let mut r = String::from_str(a);
    r.append(b);
    r.append(c);
    r.append(d);
    r.append(e);
    r
}

/// The decimal digit character for `d < 10`.
pub open spec fn digit_char(d: nat) -> char {
    if d == 0 { '0' }
    else if d == 1 { '1' }
    else if d == 2 { '2' }
    else if d == 3 { '3' }
    else if d == 4 { '4' }
    else if d == 5 { '5' }
    else if d == 6 { '6' }
    else if d == 7 { '7' }
    else if d == 8 { '8' }
    else { '9' }
}

/// Decimal representation of a natural number, most significant digit
/// first, with no leading zeros.
pub open spec fn decimal_text(n: nat) -> Seq<char>
    decreases n,
{
    if n < 10 {
        seq![digit_char(n)]
    } else {
        decimal_text(n / 10).push(digit_char(n % 10))
    }
}

/// Decimal representation of an integer: a `-` sign before the magnitude
/// when negative.
pub open spec fn int_text(v: int) -> Seq<char> {
    if v < 0 {
        seq!['-'] + decimal_text((-v) as nat)
    } else {
        decimal_text(v as nat)
    }
}

fn digit(d: u64) -> (c: char)
    requires
        d < 10,
    ensures
        c == digit_char(d as nat),
{
    match d {
        0 => '0',
        1 => '1',
        2 => '2',
        3 => '3',
        4 => '4',
        5 => '5',
        6 => '6',
        7 => '7',
        8 => '8',
        _ => '9',
    }
}

/// Decimal text of an unsigned integer.
pub fn u64_text(n: u64) -> (s: String)
    ensures
        s@ == decimal_text(n as nat),
    decreases n,
{
    if n < 10 {
        let mut s = String::new();
        push_char(&mut s, digit(n));
        s
    } else {
        let mut s = u64_text(n / 10);
        push_char(&mut s, digit(n % 10));
        s
    }
}

/// Decimal text of a signed integer (what `i64::to_string` gives).
pub fn i64_text(v: i64) -> (s: String)
    ensures
        s@ == int_text(v as int),
{
    if v < 0 {
        let wide: i128 = 0i128 - (v as i128);
        let mag: u64 = wide as u64;
        let digits = u64_text(mag);
        let mut s = String::from_str("-");
        s.append(digits.as_str());
        proof {
            reveal_strlit("-");
        }
        assert(s@ =~= seq!['-'] + decimal_text((-(v as int)) as nat));
        s
    } else {
        u64_text(v as u64)
    }
}

/// The characters of `s`, one by one.
pub fn chars_of(s: &str) -> (r: Vec<char>)
    ensures
        r@ == s@,
{
    broadcast use vstd::string::axiom_spec_iter, vstd::string::next_postcondition;

    let mut it = s.chars();
    let mut out: Vec<char> = Vec::new();
    loop
        invariant
            out@ + it.remaining() == s@,
            it.decrease() is Some,
        ensures
            out@ == s@,
        decreases it.decrease()->0,
    {
        match it.next() {
            Some(c) => {
                out.push(c);
            },
            None => {
                assert(out@ =~= s@);
                break;
            },
        }
    }
    out
}

/// A string holding `v[from..to]`.
pub fn string_of(v: &Vec<char>, from: usize, to: usize) -> (r: String)
    requires
        from <= to <= v@.len(),
    ensures
        r@ == v@.subrange(from as int, to as int),
{
    let mut r = String::new();
    let mut i: usize = from;
    while i < to
        invariant
            from <= i <= to,
            to <= v@.len(),
            r@ == v@.subrange(from as int, i as int),
        decreases to - i,
    {
        push_char(&mut r, v[i]);
        assert(r@ =~= v@.subrange(from as int, i as int + 1));
        i = i + 1;
    }
    r
}

/// `p` occurs in `h` at `i`.
pub open spec fn occurs_at(h: Seq<char>, p: Seq<char>, i: int) -> bool {
    0 <= i && i + p.len() <= h.len() && h.subrange(i, i + p.len()) == p
}

/// The first position at or after `i` where `p` occurs in `h`.
pub open spec fn find_from(h: Seq<char>, p: Seq<char>, i: int) -> Option<int>
    decreases h.len() - i + 1,
{
    if i < 0 || i + p.len() > h.len() {
        None
    } else if occurs_at(h, p, i) {
        Some(i)
    } else {
        find_from(h, p, i + 1)
    }
}

/// The first position of `p` in `h` (what `str::find` gives, counted in
/// characters).
pub open spec fn find_in(h: Seq<char>, p: Seq<char>) -> Option<int> {
    find_from(h, p, 0)
}

proof fn lemma_find_from_bounds(h: Seq<char>, p: Seq<char>, i: int)
    ensures
        find_from(h, p, i) matches Some(k) ==> i <= k && k + p.len() <= h.len() && occurs_at(h, p, k),
    decreases h.len() - i + 1,
{
    if !(i < 0 || i + p.len() > h.len()) && !occurs_at(h, p, i) {
        lemma_find_from_bounds(h, p, i + 1);
    }
}

/// Where `find_in` finds `p`, it lies inside `h`.
pub proof fn lemma_find_in_bounds(h: Seq<char>, p: Seq<char>)
    ensures
        find_in(h, p) matches Some(k) ==> 0 <= k && k + p.len() <= h.len() && occurs_at(h, p, k),
{
    lemma_find_from_bounds(h, p, 0);
}

proof fn lemma_find_from_none(h: Seq<char>, p: Seq<char>, i: int)
    requires
        i >= 0,
        find_from(h, p, i) is None,
    ensures
        forall|k: int| i <= k ==> !occurs_at(h, p, k),
    decreases h.len() - i + 1,
{
    if !(i + p.len() > h.len()) {
        lemma_find_from_none(h, p, i + 1);
    }
}

/// Where `find_in` finds nothing, `p` occurs nowhere in `h`.
pub proof fn lemma_find_in_none(h: Seq<char>, p: Seq<char>)
    requires
        find_in(h, p) is None,
    ensures
        forall|k: int| !#[trigger] occurs_at(h, p, k),
{
    lemma_find_from_none(h, p, 0);
}

/// Position of the first occurrence of `p` in `h`.
pub fn find_seq(h: &Vec<char>, p: &Vec<char>) -> (r: Option<usize>)
    ensures
        h@.len() <= usize::MAX,
        match r {
            Some(i) => find_in(h@, p@) == Some(i as int),
            None => find_in(h@, p@) is None,
        },
{
    let hl = h.len();
    if p.len() > hl {
        return None;
    }
    let last = hl - p.len();
    let mut i: usize = 0;
    while i <= last
        invariant
            last == h@.len() - p@.len(),
            hl == h@.len(),
            i <= last + 1,
            find_from(h@, p@, 0) == find_from(h@, p@, i as int),
        decreases last + 1 - i,
    {
        let mut j: usize = 0;
        let mut ok = true;
        while j < p.len()
            invariant
                i <= last,
                last == h@.len() - p@.len(),
                p@.len() <= h@.len(),
                hl == h@.len(),
                j <= p@.len(),
                ok == (forall|q: int| 0 <= q < j ==> h@[i + q] == p@[q]),
            decreases p@.len() - j,
        {
            assert(i + j < hl);
            if h[i + j] != p[j] {
                ok = false;
            }
            j = j + 1;
        }
        if ok {
            assert(h@.subrange(i as int, i + p@.len()) =~= p@);
            return Some(i);
        }
        assert(!occurs_at(h@, p@, i as int)) by {
            if occurs_at(h@, p@, i as int) {
                assert forall|q: int| 0 <= q < p@.len() implies h@[i + q] == p@[q] by {
                    assert(h@.subrange(i as int, i + p@.len())[q] == h@[i + q]);
                }
            }
        }
        if i == last {
            assert(find_from(h@, p@, i as int + 1) is None);
            return None;
        }
        i = i + 1;
    }
    None
}

/// A vector holding `v[from..]`.
pub fn suffix(v: &Vec<char>, from: usize) -> (r: Vec<char>)
    requires
        from <= v@.len(),
    ensures
        r@ == v@.subrange(from as int, v@.len() as int),
{
    let mut r: Vec<char> = Vec::new();
    let mut i: usize = from;
    while i < v.len()
        invariant
            from <= i <= v@.len(),
            r@ == v@.subrange(from as int, i as int),
        decreases v@.len() - i,
    {
        r.push(v[i]);
        assert(r@ =~= v@.subrange(from as int, i as int + 1));
        i = i + 1;
    }
    r
}


/// An element of a concatenation is an element of one of its parts.
pub proof fn lemma_concat_contains<A>(a: Seq<A>, b: Seq<A>, x: A)
    ensures
        (a + b).contains(x) <==> a.contains(x) || b.contains(x),
{
    let c = a + b;
    if c.contains(x) {
        let k = choose|k: int| 0 <= k < c.len() && c[k] == x;
        if k < a.len() {
            assert(a[k] == x);
        } else {
            assert(b[k - a.len()] == x);
        }
    }
    if a.contains(x) {
        let k = choose|k: int| 0 <= k < a.len() && a[k] == x;
        assert(c[k] == x);
    }
    if b.contains(x) {
        let k = choose|k: int| 0 <= k < b.len() && b[k] == x;
        assert(c[a.len() + k] == x);
    }
}

/// [`lemma_concat_contains`] for every pair of sequences at once.
pub proof fn lemma_concat_contains_all<A>()
    ensures
        forall|a: Seq<A>, b: Seq<A>, x: A| #[trigger] (a + b).contains(x) <==> a.contains(x) || b.contains(x),
{
    assert forall|a: Seq<A>, b: Seq<A>, x: A| #[trigger] (a + b).contains(x) <==> a.contains(x) || b.contains(x) by {
        lemma_concat_contains(a, b, x);
    }
}

} // verus!
