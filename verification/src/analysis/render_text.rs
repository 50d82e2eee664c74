//! Text pieces shared by the renderers: the compact inline form of a field
//! value, Mermaid-safe identifiers, escapes, block quotes and line
//! splitting.

use vstd::prelude::*;

use crate::ast::{FieldValue, MapEntry};
use crate::text::{chars_of, i64_text, int_text, owned, push_char};

verus! {

/// `s` with each character replaced by what `f` makes of it.
pub open spec fn map_chars(s: Seq<char>, f: spec_fn(char) -> Seq<char>) -> Seq<char>
    decreases s.len(),
{
    if s.len() == 0 {
        seq![]
    } else {
        map_chars(s.drop_last(), f) + f(s.last())
    }
}

pub proof fn lemma_map_chars_step(s: Seq<char>, i: int, f: spec_fn(char) -> Seq<char>)
    requires
        0 <= i < s.len(),
    ensures
        map_chars(s.subrange(0, i + 1), f) == map_chars(s.subrange(0, i), f) + f(s[i]),
{
    assert(s.subrange(0, i + 1).drop_last() =~= s.subrange(0, i));
}

// ---------------------------------------------------------------------------
// Inline values
// ---------------------------------------------------------------------------

/// A field value in compact inline form.
pub open spec fn spec_value_inline(v: FieldValue) -> Seq<char>
    decreases v, 1int,
{
    match v {
        FieldValue::Ident(i) => i.name@,
        FieldValue::Bool { value, .. } => if value {
            "true"@
        } else {
            "false"@
        },
        FieldValue::Int { value, .. } => int_text(value as int),
        FieldValue::String { value, .. } => "\""@ + value@ + "\""@,
        FieldValue::List { items, .. } => "["@ + join_values(items@, ", "@) + "]"@,
        FieldValue::Mapping { entries, .. } => "{"@ + join_entries(entries@) + "}"@,
        FieldValue::TypeApp { head, params, alternation, .. } => head.name@ + "<"@ + join_values(
            params@,
            if alternation {
                " | "@
            } else {
                ", "@
            },
        ) + ">"@,
        FieldValue::Call { head, args, .. } => head.name@ + "("@ + join_values(args@, ", "@) + ")"@,
        FieldValue::QualifiedIdent { alias, name, .. } => alias.name@ + "."@ + name.name@,
    }
}

/// The inline forms of `s`, separated by `sep`.
pub open spec fn join_values(s: Seq<FieldValue>, sep: Seq<char>) -> Seq<char>
    decreases s, 0int,
{
    if s.len() == 0 {
        seq![]
    } else if s.len() == 1 {
        spec_value_inline(s[0])
    } else {
        join_values(s.drop_last(), sep) + sep + spec_value_inline(s.last())
    }
}

/// `key: value` pairs, separated by `, `.
pub open spec fn join_entries(s: Seq<MapEntry>) -> Seq<char>
    decreases s, 0int,
{
    if s.len() == 0 {
        seq![]
    } else if s.len() == 1 {
        s[0].key.name@ + ": "@ + spec_value_inline(s[0].value)
    } else {
        join_entries(s.drop_last()) + ", "@ + s.last().key.name@ + ": "@ + spec_value_inline(s.last().value)
    }
}

/// A field value in compact inline form.
pub fn value_inline(value: &FieldValue) -> (r: String)
    ensures
        r@ == spec_value_inline(*value),
    decreases value,
{
    match value {
        FieldValue::Ident(i) => owned(i.name.as_str()),
        FieldValue::Bool { value: b, .. } => if *b {
            owned("true")
        } else {
            owned("false")
        },
        FieldValue::Int { value: n, .. } => i64_text(*n),
        FieldValue::String { value: s, .. } => {
            let mut r = owned("\"");
            r.append(s.as_str());
            r.append("\"");
            r
        },
        FieldValue::List { items, .. } => {
            let mut r = owned("[");
            let inner = join_inline(value, items, ", ");
            r.append(inner.as_str());
            r.append("]");
            r
        },
        FieldValue::TypeApp { head, params, alternation, .. } => {
            let sep: &str = if *alternation {
                " | "
            } else {
                ", "
            };
            let mut r = owned(head.name.as_str());
            r.append("<");
            let inner = join_inline(value, params, sep);
            r.append(inner.as_str());
            r.append(">");
            r
        },
        FieldValue::Call { head, args, .. } => {
            let mut r = owned(head.name.as_str());
            r.append("(");
            let inner = join_inline(value, args, ", ");
            r.append(inner.as_str());
            r.append(")");
            r
        },
        FieldValue::Mapping { entries, .. } => {
            let mut r = owned("{");
            let mut k: usize = 0;
            let mut inner = String::new();
            while k < entries.len()
                invariant
                    k <= entries@.len(),
                    *value == (FieldValue::Mapping { span: value->Mapping_span, entries: *entries }),
                    inner@ == join_entries(entries@.subrange(0, k as int)),
                decreases entries@.len() - k,
            {
                proof {
                    assert(entries@.subrange(0, k as int + 1).drop_last() =~= entries@.subrange(0, k as int));
                    assert(value->Mapping_entries == *entries);
                    assert(decreases_to!(*value => value->Mapping_entries));
                    assert(decreases_to!(*entries => entries@));
                    assert(decreases_to!(entries@ => entries@[k as int]));
                    assert(decreases_to!(entries@[k as int] => entries@[k as int].value));
                }
                if k > 0 {
                    inner.append(", ");
                }
                inner.append(entries[k].key.name.as_str());
                inner.append(": ");
                let v = value_inline(&entries[k].value);
                inner.append(v.as_str());
                proof {
                    if k == 0 {
                        assert(entries@.subrange(0, 1)[0] == entries@[0]);
                    }
                }
                k = k + 1;
            }
            assert(entries@.subrange(0, entries@.len() as int) =~= entries@);
            r.append(inner.as_str());
            r.append("}");
            r
        },
        FieldValue::QualifiedIdent { alias, name, .. } => {
            let mut r = owned(alias.name.as_str());
            r.append(".");
            r.append(name.name.as_str());
            r
        },
    }
}

fn join_inline(parent: &FieldValue, vals: &Vec<FieldValue>, sep: &str) -> (r: String)
    requires
        forall|k: int| 0 <= k < vals@.len() ==> decreases_to!(*parent => #[trigger] vals@[k]),
    ensures
        r@ == join_values(vals@, sep@),
    decreases parent, 0int,
{
    let mut r = String::new();
    let mut k: usize = 0;
    while k < vals.len()
        invariant
            k <= vals@.len(),
            forall|q: int| 0 <= q < vals@.len() ==> decreases_to!(*parent => #[trigger] vals@[q]),
            r@ == join_values(vals@.subrange(0, k as int), sep@),
        decreases vals@.len() - k,
    {
        proof {
            assert(vals@.subrange(0, k as int + 1).drop_last() =~= vals@.subrange(0, k as int));
            assert(decreases_to!(*parent => vals@[k as int]));
            if k == 0 {
                assert(vals@.subrange(0, 1)[0] == vals@[0]);
            }
        }
        if k > 0 {
            r.append(sep);
        }
        let v = value_inline(&vals[k]);
        r.append(v.as_str());
        k = k + 1;
    }
    assert(vals@.subrange(0, vals@.len() as int) =~= vals@);
    r
}

/// Each value of a list as `` `inline` ``, separated by `, `.
pub open spec fn spec_list_inline(s: Seq<FieldValue>) -> Seq<char>
    decreases s.len(),
{
    if s.len() == 0 {
        seq![]
    } else if s.len() == 1 {
        "`"@ + spec_value_inline(s[0]) + "`"@
    } else {
        spec_list_inline(s.drop_last()) + ", `"@ + spec_value_inline(s.last()) + "`"@
    }
}

pub fn list_idents_inline(items: &Vec<FieldValue>) -> (r: String)
    ensures
        r@ == spec_list_inline(items@),
{
    let mut r = String::new();
    let mut k: usize = 0;
    while k < items.len()
        invariant
            k <= items@.len(),
            r@ == spec_list_inline(items@.subrange(0, k as int)),
        decreases items@.len() - k,
    {
        proof {
            assert(items@.subrange(0, k as int + 1).drop_last() =~= items@.subrange(0, k as int));
            if k == 0 {
                assert(items@.subrange(0, 1)[0] == items@[0]);
            }
        }
        if k > 0 {
            r.append(", `");
        } else {
            r.append("`");
        }
        let v = value_inline(&items[k]);
        r.append(v.as_str());
        r.append("`");
        k = k + 1;
    }
    assert(items@.subrange(0, items@.len() as int) =~= items@);
    r
}

// ---------------------------------------------------------------------------
// Character maps
// ---------------------------------------------------------------------------

pub open spec fn is_ascii_alnum(c: char) -> bool {
    ('0' <= c && c <= '9') || ('A' <= c && c <= 'Z') || ('a' <= c && c <= 'z')
}

/// A Mermaid-safe identifier character.
pub open spec fn mid_char(c: char) -> Seq<char> {
    if is_ascii_alnum(c) || c == '_' {
        seq![c]
    } else {
        seq!['_']
    }
}

pub open spec fn mermaid_char(c: char) -> Seq<char> {
    if c == '"' {
        "&quot;"@
    } else if c == '<' {
        "&lt;"@
    } else if c == '>' {
        "&gt;"@
    } else {
        seq![c]
    }
}

pub open spec fn md_char(c: char) -> Seq<char> {
    if c == '|' {
        "\\|"@
    } else if c == '\n' {
        seq![' ']
    } else {
        seq![c]
    }
}

pub open spec fn label_char(c: char) -> Seq<char> {
    if c == '_' {
        seq![' ']
    } else {
        seq![c]
    }
}

pub open spec fn quote_char(c: char) -> Seq<char> {
    if c == '\n' {
        "\n  > "@
    } else {
        seq![c]
    }
}

/// Which character map to apply.
#[derive(Clone, Copy, PartialEq, Eq, Structural)]
enum CharMap {
    Mid,
    Mermaid,
    Markdown,
    Label,
    Quote,
}

spec fn char_map_fn(m: CharMap) -> spec_fn(char) -> Seq<char> {
    match m {
        CharMap::Mid => |c: char| mid_char(c),
        CharMap::Mermaid => |c: char| mermaid_char(c),
        CharMap::Markdown => |c: char| md_char(c),
        CharMap::Label => |c: char| label_char(c),
        CharMap::Quote => |c: char| quote_char(c),
    }
}

fn map_one(m: CharMap, c: char, out: &mut String)
    ensures
        final(out)@ == old(out)@ + (char_map_fn(m))(c),
{
    match m {
        CharMap::Mid => {
            let ok = ('0' <= c && c <= '9') || ('A' <= c && c <= 'Z') || ('a' <= c && c <= 'z') || c == '_';
            if ok {
                push_char(out, c);
            } else {
                push_char(out, '_');
            }
        },
        CharMap::Mermaid => {
            if c == '"' {
                out.append("&quot;");
            } else if c == '<' {
                out.append("&lt;");
            } else if c == '>' {
                out.append("&gt;");
            } else {
                push_char(out, c);
            }
        },
        CharMap::Markdown => {
            if c == '|' {
                out.append("\\|");
            } else if c == '\n' {
                push_char(out, ' ');
            } else {
                push_char(out, c);
            }
        },
        CharMap::Label => {
            if c == '_' {
                push_char(out, ' ');
            } else {
                push_char(out, c);
            }
        },
        CharMap::Quote => {
            if c == '\n' {
                out.append("\n  > ");
            } else {
                push_char(out, c);
            }
        },
    }
    assert(out@ =~= old(out)@ + (char_map_fn(m))(c));
}

fn map_text(s: &str, m: CharMap) -> (r: String)
    ensures
        r@ == map_chars(s@, char_map_fn(m)),
{
    let cs = chars_of(s);
    let mut r = String::new();
    let mut i: usize = 0;
    while i < cs.len()
        invariant
            i <= cs@.len(),
            cs@ == s@,
            r@ == map_chars(s@.subrange(0, i as int), char_map_fn(m)),
        decreases cs@.len() - i,
    {
        proof {
            lemma_map_chars_step(s@, i as int, char_map_fn(m));
        }
        map_one(m, cs[i], &mut r);
        i = i + 1;
    }
    assert(s@.subrange(0, s@.len() as int) =~= s@);
    r
}

/// A Mermaid node id for `name`: characters other than ASCII letters,
/// digits and `_` become `_`.
pub fn mid(name: &str) -> (r: String)
    ensures
        r@ == map_chars(name@, |c: char| mid_char(c)),
{
    let r = map_text(name, CharMap::Mid);
    assert(char_map_fn(CharMap::Mid) == (|c: char| mid_char(c)));
    r
}

/// A slug-prefixed node id, for graphs of several slices.
pub open spec fn spec_pmid(slug: Seq<char>, name: Seq<char>) -> Seq<char> {
    map_chars(slug, |c: char| mid_char(c)) + "__"@ + map_chars(name, |c: char| mid_char(c))
}

pub fn pmid(slug: &str, name: &str) -> (r: String)
    ensures
        r@ == spec_pmid(slug@, name@),
{
    let mut r = mid(slug);
    r.append("__");
    let n = mid(name);
    r.append(n.as_str());
    r
}

/// Escape `"`, `<` and `>` for a quoted Mermaid label.
pub fn mermaid_escape(s: &str) -> (r: String)
    ensures
        r@ == map_chars(s@, |c: char| mermaid_char(c)),
{
    let r = map_text(s, CharMap::Mermaid);
    assert(char_map_fn(CharMap::Mermaid) == (|c: char| mermaid_char(c)));
    r
}

/// Escape `|` and flatten newlines for a markdown table cell.
pub fn md_escape(s: &str) -> (r: String)
    ensures
        r@ == map_chars(s@, |c: char| md_char(c)),
{
    let r = map_text(s, CharMap::Markdown);
    assert(char_map_fn(CharMap::Markdown) == (|c: char| md_char(c)));
    r
}

/// `_` as spaces.
pub fn pretty_label(s: &str) -> (r: String)
    ensures
        r@ == map_chars(s@, |c: char| label_char(c)),
{
    let r = map_text(s, CharMap::Label);
    assert(char_map_fn(CharMap::Label) == (|c: char| label_char(c)));
    r
}

// ---------------------------------------------------------------------------
// Block quotes
// ---------------------------------------------------------------------------

/// Unicode white space (what `char::is_whitespace` accepts).
pub open spec fn is_ws(c: char) -> bool {
    ||| ('\u{9}' <= c && c <= '\u{d}')
    ||| c == ' '
    ||| c == '\u{85}'
    ||| c == '\u{a0}'
    ||| c == '\u{1680}'
    ||| ('\u{2000}' <= c && c <= '\u{200a}')
    ||| c == '\u{2028}'
    ||| c == '\u{2029}'
    ||| c == '\u{202f}'
    ||| c == '\u{205f}'
    ||| c == '\u{3000}'
}

fn is_ws_exec(c: char) -> (r: bool)
    ensures
        r == is_ws(c),
{
    ('\u{9}' <= c && c <= '\u{d}') || c == ' ' || c == '\u{85}' || c == '\u{a0}' || c == '\u{1680}' || (
    '\u{2000}' <= c && c <= '\u{200a}') || c == '\u{2028}' || c == '\u{2029}' || c == '\u{202f}' || c == '\u{205f}'
        || c == '\u{3000}'
}

/// Index of the first character at or after `i` that is not white space.
pub open spec fn lead_ws(s: Seq<char>, i: int) -> int
    decreases s.len() - i,
{
    if i < 0 || i >= s.len() || !is_ws(s[i]) {
        i
    } else {
        lead_ws(s, i + 1)
    }
}

/// End of `s[..j]` without its trailing white space.
pub open spec fn trail_end(s: Seq<char>, j: int) -> int
    decreases j,
{
    if j <= 0 || j > s.len() || !is_ws(s[j - 1]) {
        j
    } else {
        trail_end(s, j - 1)
    }
}

/// `s` without leading and trailing white space.
pub open spec fn trim_ws(s: Seq<char>) -> Seq<char> {
    let a = lead_ws(s, 0);
    if a >= s.len() {
        seq![]
    } else {
        s.subrange(a, trail_end(s, s.len() as int))
    }
}

proof fn lemma_lead_ws(s: Seq<char>, i: int)
    requires
        0 <= i <= s.len(),
    ensures
        i <= lead_ws(s, i) <= s.len(),
        lead_ws(s, i) < s.len() ==> !is_ws(s[lead_ws(s, i)]),
    decreases s.len() - i,
{
    if i < s.len() && is_ws(s[i]) {
        lemma_lead_ws(s, i + 1);
    }
}

proof fn lemma_trail_end(s: Seq<char>, j: int, a: int)
    requires
        0 <= a < j <= s.len(),
        !is_ws(s[a]),
    ensures
        a < trail_end(s, j) <= j,
    decreases j,
{
    if j > 0 && is_ws(s[j - 1]) {
        lemma_trail_end(s, j - 1, a);
    }
}

/// The text of a string field, trimmed, as a markdown block quote: `> text`
/// on one line, or each line prefixed with `  > ` after a line break when
/// the text spans lines.
pub open spec fn spec_quote(s: Seq<char>) -> Seq<char> {
    let t = trim_ws(s);
    if t.contains('\n') {
        "\n  > "@ + map_chars(t, |c: char| quote_char(c)) + "\n"@
    } else {
        "> "@ + t
    }
}

/// `s` without leading and trailing white space (`str::trim`).
pub fn trim_text(s: &str) -> (t: String)
    ensures
        t@ == trim_ws(s@),
{
    let cs = chars_of(s);
    let mut a: usize = 0;
    while a < cs.len() && is_ws_exec(cs[a])
        invariant
            a <= cs@.len(),
            cs@ == s@,
            lead_ws(s@, 0) == lead_ws(s@, a as int),
        decreases cs@.len() - a,
    {
        a = a + 1;
    }
    let mut t = String::new();
    if a < cs.len() {
        let mut b: usize = cs.len();
        assert(trail_end(s@, s@.len() as int) == trail_end(s@, b as int));
        proof {
            lemma_trail_end(s@, s@.len() as int, a as int);
        }
        while b > a && is_ws_exec(cs[b - 1])
            invariant
                a < cs@.len(),
                a < b <= cs@.len(),
                cs@ == s@,
                !is_ws(s@[a as int]),
                trail_end(s@, s@.len() as int) == trail_end(s@, b as int),
            decreases b,
        {
            b = b - 1;
        }
        let mut i: usize = a;
        while i < b
            invariant
                a <= i <= b,
                b <= cs@.len(),
                cs@ == s@,
                t@ == s@.subrange(a as int, i as int),
            decreases b - i,
        {
            push_char(&mut t, cs[i]);
            assert(t@ =~= s@.subrange(a as int, i as int + 1));
            i = i + 1;
        }
    } else {
        assert(t@ =~= trim_ws(s@));
    }
    t
}

pub fn quote(s: &str) -> (r: String)
    ensures
        r@ == spec_quote(s@),
{
    let t = trim_text(s);
    assert(t@ == trim_ws(s@));
    let tc = chars_of(t.as_str());
    let mut has_nl = false;
    let mut k: usize = 0;
    while k < tc.len()
        invariant
            k <= tc@.len(),
            tc@ == t@,
            has_nl == exists|q: int| 0 <= q < k && tc@[q] == '\n',
        decreases tc@.len() - k,
    {
        if tc[k] == '\n' {
            has_nl = true;
        }
        k = k + 1;
    }
    if has_nl {
        let mut r = owned("\n  > ");
        let body = map_text(t.as_str(), CharMap::Quote);
        assert(char_map_fn(CharMap::Quote) == (|c: char| quote_char(c)));
        r.append(body.as_str());
        r.append("\n");
        r
    } else {
        let mut r = owned("> ");
        r.append(t.as_str());
        r
    }
}

// ---------------------------------------------------------------------------
// Lines
// ---------------------------------------------------------------------------

/// `s` as its lines (`str::lines`) joined again with `\n` give it: each
/// `\r\n` becomes `\n`, and a final line ending is dropped.
pub open spec fn joined_lines(s: Seq<char>) -> Seq<char>
    decreases s.len(),
{
    if s.len() == 0 || s == seq!['\n'] || s == seq!['\r', '\n'] {
        seq![]
    } else if s.len() >= 2 && s[0] == '\r' && s[1] == '\n' {
        seq!['\n'] + joined_lines(s.subrange(2, s.len() as int))
    } else {
        seq![s[0]] + joined_lines(s.subrange(1, s.len() as int))
    }
}

/// What follows the first `n` line endings of `s`, if it has that many.
pub open spec fn skip_lines(s: Seq<char>, n: nat) -> Option<Seq<char>>
    decreases s.len(),
{
    if n == 0 {
        Some(s)
    } else if s.len() == 0 {
        None
    } else if s[0] == '\n' {
        skip_lines(s.subrange(1, s.len() as int), (n - 1) as nat)
    } else {
        skip_lines(s.subrange(1, s.len() as int), n)
    }
}

/// The lines of `s` from the third on, joined with `\n`.
pub open spec fn spec_after_two_lines(s: Seq<char>) -> Seq<char> {
    match skip_lines(s, 2) {
        Some(rest) => joined_lines(rest),
        None => seq![],
    }
}

pub fn after_two_lines(s: &str) -> (r: String)
    ensures
        r@ == spec_after_two_lines(s@),
{
    let cs = chars_of(s);
    let n = cs.len();
    let mut i: usize = 0;
    let mut left: usize = 2;
    assert(s@.subrange(0, n as int) =~= s@);
    while i < n && left > 0
        invariant
            i <= n == cs@.len(),
            cs@ == s@,
            left <= 2,
            skip_lines(s@, 2) == skip_lines(s@.subrange(i as int, n as int), left as nat),
        decreases n - i,
    {
        assert(s@.subrange(i as int, n as int).subrange(1, n - i) =~= s@.subrange(i as int + 1, n as int));
        if cs[i] == '\n' {
            left = left - 1;
        }
        i = i + 1;
    }
    let mut out = String::new();
    if left > 0 {
        assert(s@.subrange(i as int, n as int) =~= Seq::<char>::empty());
        return out;
    }
    assert(skip_lines(s@, 2) == Some(s@.subrange(i as int, n as int)));
    let ghost whole = s@.subrange(i as int, n as int);
    while i < n
        invariant
            i <= n == cs@.len(),
            cs@ == s@,
            out@ + joined_lines(s@.subrange(i as int, n as int)) == joined_lines(whole),
            skip_lines(s@, 2) == Some(whole),
        decreases n - i,
    {
        let ghost rest = s@.subrange(i as int, n as int);
        let rest_len = n - i;
        if rest_len == 1 && cs[i] == '\n' {
            assert(rest =~= seq!['\n']);
            assert(out@ =~= joined_lines(whole));
            return out;
        }
        if rest_len == 2 && cs[i] == '\r' && cs[i + 1] == '\n' {
            assert(rest =~= seq!['\r', '\n']);
            assert(out@ =~= joined_lines(whole));
            return out;
        }
        if rest_len >= 2 && cs[i] == '\r' && cs[i + 1] == '\n' {
            assert(rest.subrange(2, rest.len() as int) =~= s@.subrange(i as int + 2, n as int));
            assert(rest != seq!['\n']);
            assert(joined_lines(rest) == seq!['\n'] + joined_lines(s@.subrange(i as int + 2, n as int)));
            let ghost o = out@;
            push_char(&mut out, '\n');
            assert(out@ + joined_lines(s@.subrange(i as int + 2, n as int)) =~= o + joined_lines(rest));
            i = i + 2;
        } else {
            assert(rest.subrange(1, rest.len() as int) =~= s@.subrange(i as int + 1, n as int));
            assert(rest.len() == 1 ==> rest != seq!['\r', '\n']);
            assert(rest.len() >= 2 ==> rest != seq!['\n']);
            assert(rest[0] == cs@[i as int]);
            assert(rest.len() == 1 ==> rest[0] != seq!['\n'][0]);
            assert(joined_lines(rest) == seq![rest[0]] + joined_lines(s@.subrange(i as int + 1, n as int)));
            let ghost o = out@;
            push_char(&mut out, cs[i]);
            assert(out@ + joined_lines(s@.subrange(i as int + 1, n as int)) =~= o + joined_lines(rest));
            i = i + 1;
        }
    }
    assert(s@.subrange(n as int, n as int) =~= Seq::<char>::empty());
    out
}

} // verus!
