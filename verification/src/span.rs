//! Byte-offset spans for tokens, AST nodes, and diagnostics.
//!
//! Spans are byte-ranges into the original source string. Line/column
//! resolution is done lazily by [`SourceMap::line_col`] to keep tokens
//! cheap.

use vstd::prelude::*;
use vstd::string::StringSliceAdditionalSpecFns;

verus! {

/// Byte range `[start, end)` into a source string.
#[derive(Debug, Clone, Copy, PartialEq, Eq, Hash, Structural)]
pub struct Span {
    pub start: usize,
    pub end: usize,
}

impl Span {
    /// The empty span at offset 0.
    pub fn dummy() -> (s: Self)
        ensures
            s.start == 0 && s.end == 0,
    {
        Span { start: 0, end: 0 }
    }

    pub fn new(start: usize, end: usize) -> (s: Self)
        ensures
            s.start == start,
            s.end == end,
    {
        Span { start, end }
    }

    /// Number of bytes covered.
    pub fn len(self) -> (n: usize)
        requires
            self.start <= self.end,
        ensures
            n == self.end - self.start,
    {
        self.end - self.start
    }

    pub fn is_empty(self) -> (b: bool)
        ensures
            b == (self.start == self.end),
    {
        self.start == self.end
    }

    /// Smallest span containing both `self` and `other`.
    pub fn join(self, other: Self) -> (s: Self)
        ensures
            s == spec_join(self, other),
    {
        Span {
            start: if self.start <= other.start { self.start } else { other.start },
            end: if self.end >= other.end { self.end } else { other.end },
        }
    }

    /// The part of `source` that this span covers.
    pub fn slice<'s>(self, source: &'s str) -> (r: &'s str)
        requires
            self.start <= self.end <= source.spec_bytes().len(),
            vstd::utf8::is_char_boundary(source.spec_bytes(), self.start as int),
            vstd::utf8::is_char_boundary(source.spec_bytes(), self.end as int),
        ensures
            r.spec_bytes() == source.spec_bytes().subrange(self.start as int, self.end as int),
    {
        let bytes = Ghost(source.spec_bytes());
        proof {
            vstd::utf8::encode_utf8_valid_utf8(source@);
            vstd::utf8::valid_utf8_split(bytes@, self.start as int);
        }
        let (_, rest) = source.split_at(self.start);
        proof {
            let rb = rest.spec_bytes();
            let k = (self.end - self.start) as int;
            assert(rb =~= bytes@.subrange(self.start as int, bytes@.len() as int));
            vstd::utf8::encode_utf8_valid_utf8(rest@);
            if k < rb.len() {
                vstd::utf8::is_char_boundary_iff_not_is_continuation_byte(bytes@, self.end as int);
                vstd::utf8::is_char_boundary_iff_not_is_continuation_byte(rb, k);
                assert(rb[k] == bytes@[self.end as int]);
            } else {
                vstd::utf8::is_char_boundary_start_end_of_seq(rb);
            }
        }
        let (mid, _) = rest.split_at(self.end - self.start);
        proof {
            assert(mid.spec_bytes() =~= source.spec_bytes().subrange(self.start as int, self.end as int));
        }
        mid
    }
}

/// The smallest span covering both arguments.
pub open spec fn spec_join(a: Span, b: Span) -> Span {
    Span {
        start: if a.start <= b.start { a.start } else { b.start },
        end: if a.end >= b.end { a.end } else { b.end },
    }
}

/// `a` lies inside `b`.
pub open spec fn span_within(a: Span, b: Span) -> bool {
    b.start <= a.start && a.end <= b.end
}

/// Joining is commutative.
pub proof fn lemma_join_commutative(a: Span, b: Span)
    ensures
        spec_join(a, b) == spec_join(b, a),
{
}

/// Joining is associative.
pub proof fn lemma_join_associative(a: Span, b: Span, c: Span)
    ensures
        spec_join(spec_join(a, b), c) == spec_join(a, spec_join(b, c)),
{
}

/// Joining a span with itself gives it back.
pub proof fn lemma_join_idempotent(a: Span)
    ensures
        spec_join(a, a) == a,
{
}

/// Both arguments lie inside their join (for well-formed spans), and the
/// join is the least span that covers both.
pub proof fn lemma_join_covers(a: Span, b: Span, c: Span)
    requires
        a.start <= a.end,
        b.start <= b.end,
    ensures
        span_within(a, spec_join(a, b)),
        span_within(b, spec_join(a, b)),
        span_within(a, c) && span_within(b, c) ==> span_within(spec_join(a, b), c),
{
}

/// 1-indexed line/column pair (display form).
#[derive(Debug, Clone, Copy, PartialEq, Eq, Structural)]
pub struct LineCol {
    pub line: u32,
    pub col: u32,
}

impl LineCol {
    fn with_min_col(self, _byte_col: usize) -> (r: Self)
        ensures
            r.line == self.line,
            r.col == if self.col == 0 { 1 } else { self.col },
    {
        let mut r = self;
        if r.col == 0 {
            r.col = 1;
        }
        r
    }
}

/// Number of `\n` bytes among the first `n` bytes.
pub open spec fn newline_count(bs: Seq<u8>, n: int) -> nat
    decreases n,
{
    if n <= 0 {
        0
    } else {
        newline_count(bs, n - 1) + if bs[n - 1] == 10u8 { 1nat } else { 0nat }
    }
}

/// Offsets at which a line begins among the first `n` bytes: 0, then one
/// past every `\n`.
pub open spec fn line_starts_upto(bs: Seq<u8>, n: int) -> Seq<usize>
    decreases n,
{
    if n <= 0 {
        seq![0usize]
    } else if bs[n - 1] == 10u8 {
        line_starts_upto(bs, n - 1).push(n as usize)
    } else {
        line_starts_upto(bs, n - 1)
    }
}

/// Offset of the start of the line holding byte offset `n`: one past the
/// last `\n` before `n`, or 0.
pub open spec fn line_start_before(bs: Seq<u8>, n: int) -> int
    decreases n,
{
    if n <= 0 {
        0
    } else if bs[n - 1] == 10u8 {
        n
    } else {
        line_start_before(bs, n - 1)
    }
}

/// Number of characters encoded in `bs[from..to]`: the bytes that are not
/// UTF-8 continuation bytes.
pub open spec fn char_count(bs: Seq<u8>, from: int, to: int) -> nat
    decreases to - from,
{
    if to <= from {
        0
    } else {
        char_count(bs, from, to - 1) + if vstd::utf8::is_continuation_byte(bs[to - 1]) {
            0nat
        } else {
            1nat
        }
    }
}

/// Lazy line-offset index over a single source string.
pub struct SourceMap<'s> {
    source: &'s str,
    line_starts: Vec<usize>,
}

impl<'s> SourceMap<'s> {
    /// The source text this map indexes.
    pub closed spec fn spec_source(&self) -> &'s str {
        self.source
    }

    /// Byte offset of every line start, in order.
    pub closed spec fn spec_line_starts(&self) -> Seq<usize> {
        self.line_starts@
    }

    pub fn new(source: &'s str) -> (m: Self)
        ensures
            m.spec_source() == source,
            m.spec_line_starts() == line_starts_upto(source.spec_bytes(), source.spec_bytes().len() as int),
    {
        let bytes = source.as_bytes();
        let mut line_starts: Vec<usize> = Vec::new();
        line_starts.push(0);
        let mut i: usize = 0;
        while i < bytes.len()
            invariant
                0 <= i <= bytes@.len(),
                line_starts@ == line_starts_upto(bytes@, i as int),
            decreases bytes@.len() - i,
        {
            if bytes[i] == 10u8 {
                line_starts.push(i + 1);
            }
            i = i + 1;
        }
        SourceMap { source, line_starts }
    }

    pub fn source(&self) -> (s: &'s str)
        ensures
            s == self.spec_source(),
    {
        self.source
    }

    /// Convert a byte offset to a 1-indexed (line, column) pair. Offsets past
    /// the end resolve against the end of the source; the column counts
    /// characters, not bytes.
    pub fn line_col(&self, offset: usize) -> (lc: LineCol)
        requires
            self.spec_source().spec_bytes().len() < u32::MAX,
        ensures
            ({
                let bs = self.spec_source().spec_bytes();
                let m = if offset <= bs.len() { offset as int } else { bs.len() as int };
                &&& lc.line == 1 + newline_count(bs, m)
                &&& lc.col == 1 + char_count(bs, line_start_before(bs, m), m)
            }),
    {
        let bytes = self.source.as_bytes();
        let ghost bs = bytes@;
        let m: usize = if offset <= bytes.len() { offset } else { bytes.len() };
        let mut line_idx: usize = 0;
        let mut seen: usize = 0;
        let mut line_start: usize = 0;
        // Scan bytes directly: every `\n` at an index below `m` opens a line.
        while seen < m
            invariant
                0 <= seen <= m <= bs.len(),
                bs == bytes@,
                line_idx as nat == newline_count(bs, seen as int),
                line_idx <= seen,
                line_start as int == line_start_before(bs, seen as int),
                bs.len() < u32::MAX,
            decreases m - seen,
        {
            if bytes[seen] == 10u8 {
                line_idx = line_idx + 1;
                line_start = seen + 1;
            }
            seen = seen + 1;
        }
        proof {
            lemma_newline_count_bound(bs, m as int);
        }
        let mut count: usize = 0;
        let mut k: usize = line_start;
        proof {
            lemma_line_start_before_bound(bs, m as int);
        }
        while k < m
            invariant
                line_start <= k <= m <= bs.len(),
                bs == bytes@,
                count as nat == char_count(bs, line_start as int, k as int),
                count <= k - line_start,
                bs.len() < u32::MAX,
            decreases m - k,
        {
            let b = bytes[k];
            if !(0x80u8 <= b && b <= 0xbfu8) {
                count = count + 1;
            }
            k = k + 1;
        }
        let col_chars: u32 = count as u32;
        let lc = LineCol { line: (line_idx + 1) as u32, col: col_chars + 1 };
        lc.with_min_col(m - line_start)
    }
}

proof fn lemma_newline_count_bound(bs: Seq<u8>, n: int)
    requires
        0 <= n <= bs.len(),
    ensures
        newline_count(bs, n) <= n,
    decreases n,
{
    if n > 0 {
        lemma_newline_count_bound(bs, n - 1);
    }
}

proof fn lemma_line_start_before_bound(bs: Seq<u8>, n: int)
    requires
        0 <= n <= bs.len(),
    ensures
        0 <= line_start_before(bs, n) <= n,
    decreases n,
{
    if n > 0 {
        lemma_line_start_before_bound(bs, n - 1);
    }
}

} // verus!
