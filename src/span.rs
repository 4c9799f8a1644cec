//! Positioned views over source text.
use vstd::prelude::*;
use vstd::string::*;

verus! {

/// A character that is encoded in UTF-8 as a single byte.
pub open spec fn is_ascii_char(c: char) -> bool {
    (c as u32) < 128
}

/// Every character of `s` is ASCII.
pub open spec fn all_ascii(s: Seq<char>) -> bool {
    forall|i: int| 0 <= i < s.len() ==> is_ascii_char(#[trigger] s[i])
}

/// The line number after `consumed` has been read starting on line `line`.
pub open spec fn line_after(line: nat, consumed: Seq<char>) -> nat
    decreases consumed.len(),
{
    if consumed.len() == 0 {
        line
    } else {
        let next = if consumed[0] == '\n' { line + 1 } else { line };
        line_after(next, consumed.drop_first())
    }
}

/// The column after `consumed` has been read starting at column `column`:
/// a newline starts a new line at column 1, any other character moves one
/// column to the right.
pub open spec fn column_after(column: nat, consumed: Seq<char>) -> nat
    decreases consumed.len(),
{
    if consumed.len() == 0 {
        column
    } else {
        let next = if consumed[0] == '\n' { 1 } else { column + 1 };
        column_after(next, consumed.drop_first())
    }
}

/// The span that remains after the first `k` characters of `v` are consumed.
pub open spec fn span_after(v: SpanView, k: nat) -> SpanView {
    let consumed = v.fragment.take(k as int);
    SpanView {
        fragment: v.fragment.skip(k as int),
        offset: v.offset + k,
        line: line_after(v.line, consumed),
        column: column_after(v.column, consumed),
    }
}

/// Consuming nothing leaves a span as it is.
pub proof fn lemma_span_after_zero(v: SpanView)
    ensures
        span_after(v, 0) == v,
{
    assert(v.fragment.take(0) =~= Seq::<char>::empty());
    assert(v.fragment.skip(0) =~= v.fragment);
}

/// Reading `a` characters and then `b` more is reading `a + b`.
pub proof fn lemma_span_after_add(v: SpanView, a: nat, b: nat)
    requires
        a + b <= v.fragment.len(),
    ensures
        span_after(span_after(v, a), b) == span_after(v, a + b),
{
    let x = v.fragment.take(a as int);
    let y = v.fragment.skip(a as int).take(b as int);
    assert(v.fragment.take((a + b) as int) =~= x + y);
    assert(v.fragment.skip(a as int).skip(b as int) =~= v.fragment.skip((a + b) as int));
    lemma_read_concat(v.line, v.column, x, y);
}

/// Line and column after reading `x + y` are those after reading `x`, then `y`.
pub proof fn lemma_read_concat(line: nat, column: nat, x: Seq<char>, y: Seq<char>)
    ensures
        line_after(line, x + y) == line_after(line_after(line, x), y),
        column_after(column, x + y) == column_after(column_after(column, x), y),
    decreases x.len(),
{
    if x.len() == 0 {
        assert(x + y =~= y);
    } else {
        assert((x + y).drop_first() =~= x.drop_first() + y);
        let l = if x[0] == '\n' { line + 1 } else { line };
        let c = if x[0] == '\n' { 1 } else { column + 1 };
        lemma_read_concat(l, c, x.drop_first(), y);
    }
}

/// What a span denotes: the text that remains, and where in the whole source
/// that text starts (byte offset, 1-based line, 1-based column).
pub struct SpanView {
    pub fragment: Seq<char>,
    pub offset: nat,
    pub line: nat,
    pub column: nat,
}

/// A positioned view over source text. Parsers take a span as the input
/// that remains and hand back a shorter one; a failure carries the span at
/// which it happened.
#[derive(Clone, Copy, Debug)]
pub struct Span<'a> {
    fragment: &'a str,
    len: usize,
    offset: usize,
    line: usize,
    column: usize,
}

impl<'a> View for Span<'a> {
    type V = SpanView;

    closed spec fn view(&self) -> SpanView {
        SpanView {
            fragment: self.fragment@,
            offset: self.offset as nat,
            line: self.line as nat,
            column: self.column as nat,
        }
    }
}

impl<'a> Span<'a> {
    #[verifier::type_invariant]
    spec fn well_formed(&self) -> bool {
        &&& self.len == self.fragment@.len()
        &&& self.offset + self.len < usize::MAX
        &&& 1 <= self.line <= self.offset + 1
        &&& 1 <= self.column <= self.offset + 1
    }

    /// The span over the whole of `source`, at offset 0, line 1, column 1.
    pub fn new(source: &'a str) -> (r: Span<'a>)
        requires
            source@.len() < usize::MAX,
        ensures
            r@ == (SpanView { fragment: source@, offset: 0, line: 1, column: 1 }),
    {
        let len = source.unicode_len();
        Span { fragment: source, len, offset: 0, line: 1, column: 1 }
    }

    /// The text that remains.
    pub fn fragment(&self) -> (r: &'a str)
        ensures
            r@ == self@.fragment,
    {
        self.fragment
    }

    /// Number of characters that remain.
    pub fn len(&self) -> (r: usize)
        ensures
            r == self@.fragment.len(),
    {
        proof {
            use_type_invariant(self);
        }
        self.len
    }

    /// Nothing remains.
    pub fn is_empty(&self) -> (r: bool)
        ensures
            r == (self@.fragment.len() == 0),
    {
        proof {
            use_type_invariant(self);
        }
        self.len == 0
    }

    /// Byte offset of the first remaining character in the whole source.
    pub fn location_offset(&self) -> (r: usize)
        ensures
            r == self@.offset,
    {
        self.offset
    }

    /// Line (from 1) of the first remaining character.
    pub fn location_line(&self) -> (r: usize)
        ensures
            r == self@.line,
    {
        self.line
    }

    /// Column (from 1, counted in bytes) of the first remaining character.
    pub fn get_column(&self) -> (r: usize)
        ensures
            r == self@.column,
    {
        self.column
    }

    /// The first `k` characters of the remaining text.
    pub fn prefix(&self, k: usize) -> (r: &'a str)
        requires
            k <= self@.fragment.len(),
        ensures
            r@ == self@.fragment.take(k as int),
    {
        proof {
            use_type_invariant(self);
        }
        self.fragment.substring_char(0, k)
    }

    /// The character at position `i` of the remaining text.
    pub fn char_at(&self, i: usize) -> (c: char)
        requires
            i < self@.fragment.len(),
        ensures
            c == self@.fragment[i as int],
    {
        self.fragment.get_char(i)
    }

    /// The remaining text starts with the character `c`.
    pub fn starts_with_char(&self, c: char) -> (r: bool)
        ensures
            r == (self@.fragment.len() > 0 && self@.fragment[0] == c),
    {
        proof {
            use_type_invariant(self);
        }
        self.len > 0 && self.fragment.get_char(0) == c
    }

    /// The span after the first `k` characters, which must be ASCII, have been
    /// consumed: each counts one byte, and a newline moves to the next line.
    pub fn advance(&self, k: usize) -> (r: Span<'a>)
        requires
            k <= self@.fragment.len(),
            all_ascii(self@.fragment.take(k as int)),
        ensures
            r@ == span_after(self@, k as nat),
    {
        proof {
            use_type_invariant(self);
        }
        let mut line = self.line;
        let mut column = self.column;
        let mut i: usize = 0;
        while i < k
            invariant
                i <= k <= self.len,
                self.len == self.fragment@.len(),
                self.offset + self.len < usize::MAX,
                1 <= line <= self.offset + i + 1,
                1 <= column <= self.offset + i + 1,
                line_after(line as nat, self.fragment@.subrange(i as int, k as int))
                    == line_after(self.line as nat, self.fragment@.take(k as int)),
                column_after(column as nat, self.fragment@.subrange(i as int, k as int))
                    == column_after(self.column as nat, self.fragment@.take(k as int)),
            decreases k - i,
        {
            let c = self.fragment.get_char(i);
            proof {
                let rest = self.fragment@.subrange(i as int, k as int);
                assert(rest[0] == c);
                assert(rest.drop_first() =~= self.fragment@.subrange(i + 1, k as int));
            }
            if c == '\n' {
                line = line + 1;
                column = 1;
            } else {
                column = column + 1;
            }
            i = i + 1;
        }
        proof {
            assert(self.fragment@.subrange(k as int, k as int) =~= Seq::<char>::empty());
            assert(self.fragment@.take(k as int) =~= self.fragment@.subrange(0, k as int));
        }
        let rest = self.fragment.substring_char(k, self.len);
        Span { fragment: rest, len: self.len - k, offset: self.offset + k, line, column }
    }
}

} // verus!
