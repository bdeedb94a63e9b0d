//! Byte spans, span-carrying nodes and line/column lookup in source text.

use vstd::prelude::*;
use crate::text::{nat_decimal, push_str, push_usize};
use vstd::string::StringSliceAdditionalSpecFns;

verus! {

/// A half-open range of byte offsets into a source text.
#[derive(Clone, Copy, Debug, Default, PartialEq, Eq, Hash, Structural)]
pub struct Span {
    pub start: usize,
    pub end: usize,
}

impl Span {
    pub fn new(start: usize, end: usize) -> (r: Span)
        ensures
            r.start == start,
            r.end == end,
    {
        Span { start, end }
    }

    /// The smallest span that covers both spans: the lesser start and the
    /// greater end.
    pub fn join(self, other: Span) -> (r: Span)
        ensures
            r.start == if self.start <= other.start { self.start } else { other.start },
            r.end == if self.end >= other.end { self.end } else { other.end },
    {
        let start = if self.start <= other.start { self.start } else { other.start };
        let end = if self.end >= other.end { self.end } else { other.end };
        Span { start, end }
    }

    pub fn is_empty(self) -> (r: bool)
        ensures
            r == (self.start == self.end),
    {
        self.start == self.end
    }

    /// Whether the span is ordered (`start <= end`).
    pub open spec fn ordered(self) -> bool {
        self.start <= self.end
    }

    /// The zero-width span at offset 0, as `Span::default()` gives it.
    pub open spec fn default_spec() -> Span {
        Span { start: 0, end: 0 }
    }

    /// The span written as `start..end`.
    pub fn to_string(self) -> (r: String)
        ensures
            r@ == nat_decimal(self.start as nat) + seq!['.', '.'] + nat_decimal(self.end as nat),
    {
        let mut s = String::new();
        push_usize(&mut s, self.start);
        push_str(&mut s, "..");
        push_usize(&mut s, self.end);
        proof {
            reveal_strlit("..");
            assert(s@ =~= nat_decimal(self.start as nat) + seq!['.', '.'] + nat_decimal(self.end as nat));
        }
        s
    }

    /// The zero-width span at offset 0.
    pub fn zero() -> (r: Span)
        ensures
            r.start == 0,
            r.end == 0,
    {
        Span { start: 0, end: 0 }
    }
}

/// Joining is commutative.
pub proof fn lemma_join_commutes(a: Span, b: Span)
    ensures
        ({
            let ab = Span {
                start: if a.start <= b.start { a.start } else { b.start },
                end: if a.end >= b.end { a.end } else { b.end },
            };
            let ba = Span {
                start: if b.start <= a.start { b.start } else { a.start },
                end: if b.end >= a.end { b.end } else { a.end },
            };
            ab == ba
        }),
{
}

/// The join of two spans covers both of them.
pub proof fn lemma_join_covers(a: Span, b: Span)
    ensures
        ({
            let j = Span {
                start: if a.start <= b.start { a.start } else { b.start },
                end: if a.end >= b.end { a.end } else { b.end },
            };
            &&& j.start <= a.start && j.start <= b.start
            &&& j.end >= a.end && j.end >= b.end
            &&& (j.start == a.start || j.start == b.start)
            &&& (j.end == a.end || j.end == b.end)
        }),
{
}

/// A value of kind `T` together with the span it was read from.
#[derive(Clone, Debug)]
pub struct Node<T> {
    pub span: Span,
    pub kind: T,
}

impl<T> Node<T> {
    pub fn new(span: Span, kind: T) -> (r: Node<T>)
        ensures
            r.span == span,
            r.kind == kind,
    {
        Node { span, kind }
    }

    /// The node with the same span and its kind transformed by `f`.
    pub fn map<U, F: FnOnce(T) -> U>(self, f: F) -> (r: Node<U>)
        requires
            f.requires((self.kind,)),
        ensures
            r.span == self.span,
            f.ensures((self.kind,), r.kind),
    {
        let span = self.span;
        let kind = f(self.kind);
        Node { span, kind }
    }
}

/// The offsets at which lines start in `bytes`: offset 0, and every offset
/// that follows a newline byte.
pub open spec fn line_starts_of(bytes: Seq<u8>) -> Seq<int>
    decreases bytes.len(),
{
    if bytes.len() == 0 {
        seq![0int]
    } else if bytes.last() == 10u8 {
        line_starts_of(bytes.drop_last()).push(bytes.len() as int)
    } else {
        line_starts_of(bytes.drop_last())
    }
}

/// The line starts are 0 first, strictly increasing and at most the length.
pub proof fn lemma_line_starts_sorted(bytes: Seq<u8>)
    ensures
        line_starts_of(bytes).len() >= 1,
        line_starts_of(bytes)[0] == 0,
        forall|i: int, j: int|
            0 <= i < j < line_starts_of(bytes).len() ==> #[trigger] line_starts_of(bytes)[i]
                < #[trigger] line_starts_of(bytes)[j],
        forall|i: int|
            0 <= i < line_starts_of(bytes).len() ==> 0 <= #[trigger] line_starts_of(bytes)[i]
                <= bytes.len(),
    decreases bytes.len(),
{
    if bytes.len() > 0 {
        lemma_line_starts_sorted(bytes.drop_last());
    }
}

/// `idx` is the line that holds `offset`: the last line start at or
/// before `offset`.
pub open spec fn is_line_of(starts: Seq<int>, offset: int, idx: int) -> bool {
    &&& 0 <= idx < starts.len()
    &&& starts[idx] <= offset
    &&& (idx + 1 == starts.len() || offset < starts[idx + 1])
}

/// Each offset lies on exactly one line: line and column are a function of
/// the offset, so every rendering of a position agrees.
pub proof fn lemma_line_unique(bytes: Seq<u8>, offset: int, a: int, b: int)
    requires
        is_line_of(line_starts_of(bytes), offset, a),
        is_line_of(line_starts_of(bytes), offset, b),
    ensures
        a == b,
{
    lemma_line_starts_sorted(bytes);
    let starts = line_starts_of(bytes);
    if a < b {
        assert(starts[a + 1] <= starts[b]) by {
            if a + 1 < b {
                assert(starts[a + 1] < starts[b]);
            }
        }
    } else if b < a {
        assert(starts[b + 1] <= starts[a]) by {
            if b + 1 < a {
                assert(starts[b + 1] < starts[a]);
            }
        }
    }
}

/// A named source text with an index of its line starts.
#[derive(Clone, Debug)]
pub struct SourceFile<'a> {
    pub name: &'a str,
    pub text: &'a str,
    line_starts: Vec<usize>,
}

impl<'a> SourceFile<'a> {
    /// The line starts are those of the text.
    pub closed spec fn wf(&self) -> bool {
        &&& self.line_starts@.len() == line_starts_of(self.text.spec_bytes()).len()
        &&& forall|i: int|
            0 <= i < self.line_starts@.len() ==> self.line_starts@[i] as int == line_starts_of(
                self.text.spec_bytes(),
            )[i]
    }

    /// The name of the source.
    pub closed spec fn name_view(&self) -> Seq<char> {
        self.name@
    }

    /// The bytes of the source text.
    pub closed spec fn text_bytes(&self) -> Seq<u8> {
        self.text.spec_bytes()
    }

    /// The line starts of the text, as offsets.
    pub closed spec fn starts(&self) -> Seq<int> {
        line_starts_of(self.text.spec_bytes())
    }

    /// The line starts are those of the text's bytes.
    pub proof fn lemma_starts_of_text(&self)
        ensures
            self.starts() == line_starts_of(self.text_bytes()),
    {
    }

    pub fn new(name: &'a str, text: &'a str) -> (r: SourceFile<'a>)
        ensures
            r.wf(),
            r.name_view() == name@,
            r.text_bytes() == text.spec_bytes(),
            r.starts() == line_starts_of(text.spec_bytes()),
    {
        let bytes = text.as_bytes();
        let mut line_starts: Vec<usize> = Vec::new();
        line_starts.push(0);
        let mut i: usize = 0;
        proof {
            assert(bytes@.take(0) =~= Seq::<u8>::empty());
        }
        while i < bytes.len()
            invariant
                0 <= i <= bytes@.len(),
                bytes@ == text.spec_bytes(),
                line_starts@.len() == line_starts_of(bytes@.take(i as int)).len(),
                forall|k: int|
                    0 <= k < line_starts@.len() ==> line_starts@[k] as int == line_starts_of(
                        bytes@.take(i as int),
                    )[k],
            decreases bytes@.len() - i,
        {
            proof {
                assert(bytes@.take(i as int + 1).drop_last() =~= bytes@.take(i as int));
            }
            if bytes[i] == 10u8 {
                line_starts.push(i + 1);
            }
            i = i + 1;
        }
        proof {
            assert(bytes@.take(i as int) =~= bytes@);
        }
        SourceFile { name, text, line_starts }
    }

    /// The 1-based line and column of a byte offset: the line is the last
    /// line whose start is at or before `offset`, and the column counts bytes
    /// from that start.
    pub fn line_col(&self, offset: usize) -> (r: (usize, usize))
        requires
            self.wf(),
            offset < usize::MAX,
        ensures
            is_line_of(self.starts(), offset as int, r.0 - 1),
            r.1 == offset - self.starts()[r.0 - 1] + 1,
    {
        proof {
            lemma_line_starts_sorted(self.text.spec_bytes());
        }
        let ghost starts = self.starts();
        // Binary search for the last start at or before `offset`.
        let mut lo: usize = 0;
        let mut hi: usize = self.line_starts.len();
        while lo + 1 < hi
            invariant
                self.wf(),
                starts == self.starts(),
                starts.len() == self.line_starts@.len(),
                starts[0] == 0,
                forall|i: int, j: int| 0 <= i < j < starts.len() ==> starts[i] < starts[j],
                0 <= lo < hi <= starts.len(),
                starts[lo as int] <= offset,
                hi == starts.len() || offset < starts[hi as int],
            decreases hi - lo,
        {
            let mid = lo + (hi - lo) / 2;
            if self.line_starts[mid] <= offset {
                lo = mid;
            } else {
                hi = mid;
            }
        }
        let line_start = self.line_starts[lo];
        (lo + 1, offset - line_start + 1)
    }

    /// `name:line:col` for the start of the span.
    pub fn format_span(&self, span: Span) -> (r: String)
        requires
            self.wf(),
            span.start < usize::MAX,
        ensures
            exists|line: usize, col: usize|
                #![trigger nat_decimal(line as nat), nat_decimal(col as nat)]
                {
                    &&& is_line_of(self.starts(), span.start as int, line - 1)
                    &&& col == span.start - self.starts()[line - 1] + 1
                    &&& r@ == self.name_view() + seq![':'] + nat_decimal(line as nat) + seq![':']
                        + nat_decimal(col as nat)
                },
    {
        let (line, col) = self.line_col(span.start);
        let mut s = String::new();
        push_str(&mut s, self.name);
        push_str(&mut s, ":");
        push_usize(&mut s, line);
        push_str(&mut s, ":");
        push_usize(&mut s, col);
        proof {
            reveal_strlit(":");
            assert(s@ =~= self.name@ + seq![':'] + nat_decimal(line as nat) + seq![':']
                + nat_decimal(col as nat));
            assert(is_line_of(self.starts(), span.start as int, line - 1));
        }
        s
    }
}

} // verus!
