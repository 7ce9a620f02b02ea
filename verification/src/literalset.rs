//! Literals annotated with padding metrics, and sets of literals that sit on
//! consecutive source lines.
//!
//! A `ConsecutiveLiteralSet` merges the content of its literals into one
//! *virtual text* (content joined by single newlines) and translates linear
//! byte offsets within that text back into source line/column coordinates.

use vstd::prelude::*;
use vstd::std_specs::cmp::PartialEqSpec;
use crate::span::{LineColumn, Span, CoreError};
use crate::util::append_range;

verus! {

/// Whitespace in this crate's byte model: the six ASCII blanks (space,
/// tab, line feed, vertical tab, form feed, carriage return). The crate
/// works on bytes throughout, so a multi-byte Unicode whitespace character
/// (a no-break space, say) counts as content: it is neither stripped as
/// padding nor taken as a wrap point, where a character-based model would
/// treat it as blank.
pub open spec fn is_blank_byte(b: u8) -> bool {
    ||| b == 32u8
    ||| b == 9u8
    ||| b == 10u8
    ||| b == 11u8
    ||| b == 12u8
    ||| b == 13u8
}

fn is_blank(b: u8) -> (r: bool)
    ensures
        r == is_blank_byte(b),
{
    b == 32 || b == 9 || b == 10 || b == 11 || b == 12 || b == 13
}

/// A literal with meta info on where its leading and trailing whitespace
/// ends: `pre` and `post` hold the padding length plus one, so that the
/// literal's delimiter characters are stripped along with the padding.
#[derive(Clone, Debug)]
pub struct AnnotatedLiteral {
    /// The complete rendered string, delimiters and padding included.
    pub rendered: Vec<u8>,
    /// The literal's extent in the original source. `span.end.column` is one
    /// past the last column of the rendered text.
    pub span: Span,
    /// Whitespace prefix length + 1.
    pub pre: usize,
    /// Whitespace postfix length + 1.
    pub post: usize,
    /// Content length without `pre` and `post`; zero when the padding
    /// accounting would exceed the rendered length.
    pub len: usize,
}

impl AnnotatedLiteral {
    /// Padding accounting is consistent: `pre + len + post` covers the
    /// rendered text exactly, with no flooring involved.
    pub open spec fn padding_consistent(self) -> bool {
        &&& 1 <= self.pre
        &&& 1 <= self.post
        &&& self.pre + self.post <= self.rendered@.len()
        &&& self.len == self.rendered@.len() - self.pre - self.post
    }

    /// A literal the mapping can work on: consistent padding, a single
    /// source line, 1-based coordinates, and a span that covers the rendered
    /// text exactly.
    pub open spec fn wf(self) -> bool {
        &&& self.padding_consistent()
        &&& self.span.start.line == self.span.end.line
        &&& 1 <= self.span.start.line
        &&& 1 <= self.span.start.column
        &&& self.span.end.column == self.span.start.column + self.rendered@.len()
    }

    /// The semantically meaningful text: the rendered string with padding
    /// (and delimiters) stripped.
    pub open spec fn content_spec(self) -> Seq<u8> {
        if self.len > 0 && self.pre + self.len <= self.rendered@.len() {
            self.rendered@.subrange(self.pre as int, self.pre + self.len)
        } else {
            Seq::empty()
        }
    }

    /// Annotate a rendered literal: compute the padding metrics in one pass.
    /// Never fails; a rendered text shorter than its padding gets `len == 0`.
    pub fn from(rendered: Vec<u8>, span: Span) -> (r: Self)
        requires
            rendered@.len() < usize::MAX,
        ensures
            r.rendered == rendered,
            r.span == span,
            1 <= r.pre,
            1 <= r.post,
            r.pre - 1 <= rendered@.len(),
            r.post - 1 <= rendered@.len(),
            forall|i: int| 0 <= i < r.pre - 1 ==> is_blank_byte(rendered@[i]),
            r.pre - 1 < rendered@.len() ==> !is_blank_byte(rendered@[r.pre - 1]),
            forall|i: int|
                rendered@.len() - (r.post - 1) <= i < rendered@.len() ==> is_blank_byte(
                    rendered@[i],
                ),
            r.post - 1 < rendered@.len() ==> !is_blank_byte(
                rendered@[rendered@.len() - r.post],
            ),
            r.len == if rendered@.len() > r.pre + r.post {
                rendered@.len() - r.pre - r.post
            } else {
                0
            },
            r.pre + r.post <= rendered@.len() ==> r.padding_consistent(),
    {
        let n: usize = rendered.len();
        let mut lead: usize = 0;
        while lead < n && is_blank(rendered[lead])
            invariant
                lead <= n,
                n == rendered@.len(),
                forall|i: int| 0 <= i < lead ==> is_blank_byte(rendered@[i]),
            decreases n - lead,
        {
            lead = lead + 1;
        }
        let mut trail: usize = 0;
        while trail < n && is_blank(rendered[n - 1 - trail])
            invariant
                trail <= n,
                n == rendered@.len(),
                forall|i: int| n - trail <= i < n ==> is_blank_byte(rendered@[i]),
            decreases n - trail,
        {
            trail = trail + 1;
        }
        let pre: usize = lead + 1;
        let post: usize = trail + 1;
        let len: usize = if n > pre && n - pre > post {
            n - pre - post
        } else {
            0
        };
        AnnotatedLiteral { rendered, span, pre, post, len }
    }

    /// Defensive check on the padding accounting. A literal whose padding
    /// would exceed its rendered length is malformed and is excluded from
    /// its set rather than aborting a whole pass.
    pub fn validate(&self) -> (r: Result<(), CoreError>)
        ensures
            (r is Ok) <==> self.padding_consistent(),
            r matches Err(e) ==> e == CoreError::MalformedLiteral,
    {
        if 1 <= self.pre && 1 <= self.post && self.pre <= self.rendered.len()
            && self.rendered.len() - self.pre >= self.post && self.len == self.rendered.len()
            - self.pre - self.post {
            Ok(())
        } else {
            Err(CoreError::MalformedLiteral)
        }
    }

    /// The content bytes, padding stripped. Borrows from the literal;
    /// no allocation.
    pub fn as_str(&self) -> (r: &[u8])
        ensures
            r@ == self.content_spec(),
    {
        if self.len > 0 && self.pre <= self.rendered.len() && self.rendered.len() - self.pre
            >= self.len {
            vstd::slice::slice_subrange(self.rendered.as_slice(), self.pre, self.pre + self.len)
        } else {
            let empty: &[u8] = vstd::slice::slice_subrange(self.rendered.as_slice(), 0, 0);
            proof {
                assert(empty@ =~= Seq::<u8>::empty());
            }
            empty
        }
    }
}

/// Deep equality of two literals: same rendered bytes, padding, and span.
pub open spec fn same_literal(a: AnnotatedLiteral, b: AnnotatedLiteral) -> bool {
    &&& a.rendered@ == b.rendered@
    &&& a.pre == b.pre
    &&& a.post == b.post
    &&& a.len == b.len
    &&& a.span == b.span
}

impl PartialEq for AnnotatedLiteral {
    fn eq(&self, other: &Self) -> (r: bool) {
        let same_rendered: bool = self.rendered == other.rendered;
        proof {
            if same_rendered {
                assert(self.rendered@ =~= other.rendered@);
            }
        }
        same_rendered && self.pre == other.pre && self.post == other.post && self.len == other.len
            && self.span == other.span
    }
}

impl vstd::std_specs::cmp::PartialEqSpecImpl for AnnotatedLiteral {
    open spec fn obeys_eq_spec() -> bool {
        true
    }

    open spec fn eq_spec(&self, other: &Self) -> bool {
        same_literal(*self, *other)
    }
}

/// A lightweight borrowed view of an `AnnotatedLiteral`, exposing the same
/// accessors without an additional allocation.
#[derive(Clone, Copy, Debug)]
pub struct AnnotatedLiteralRef<'l> {
    reference: &'l AnnotatedLiteral,
}

impl<'l> AnnotatedLiteralRef<'l> {
    /// View of the borrowed literal.
    pub closed spec fn lit(self) -> AnnotatedLiteral {
        *self.reference
    }

    /// Borrow a literal.
    pub fn new(reference: &'l AnnotatedLiteral) -> (r: Self)
        ensures
            r.lit() == *reference,
    {
        Self { reference }
    }

    /// Whitespace prefix length + 1.
    pub fn pre(&self) -> (r: usize)
        ensures
            r == self.lit().pre,
    {
        self.reference.pre
    }

    /// Whitespace postfix length + 1.
    pub fn post(&self) -> (r: usize)
        ensures
            r == self.lit().post,
    {
        self.reference.post
    }

    /// The content bytes of the borrowed literal.
    pub fn as_str(&self) -> (r: &[u8])
        ensures
            r@ == self.lit().content_spec(),
    {
        self.reference.as_str()
    }

    /// Content length.
    pub fn len(&self) -> (r: usize)
        ensures
            r == self.lit().len,
    {
        self.reference.len
    }
}

/// An ordered set of literals that are strictly line-adjacent in the source:
/// each literal starts on the line right after the previous one.
#[derive(Debug)]
pub struct ConsecutiveLiteralSet {
    /// Consecutive literals, ordered by ascending source line.
    pub literals: Vec<AnnotatedLiteral>,
    /// Lines spanned: `(first_line, last_line)`, inclusive.
    pub coverage: (usize, usize),
}

impl ConsecutiveLiteralSet {
    /// The literals of the set, as a mathematical sequence.
    pub open spec fn lits(self) -> Seq<AnnotatedLiteral> {
        self.literals@
    }

    /// Well-formedness: every literal is well formed and single-line, lines
    /// are strictly consecutive, and `coverage` matches the first and last
    /// literal.
    pub open spec fn wf(self) -> bool {
        &&& forall|i: int| 0 <= i < self.lits().len() ==> (#[trigger] self.lits()[i]).wf()
        &&& forall|i: int|
            0 <= i < self.lits().len() - 1 ==> (#[trigger] self.lits()[i + 1]).span.start.line
                == self.lits()[i].span.start.line + 1
        &&& if self.lits().len() == 0 {
            self.coverage == (0usize, 0usize)
        } else {
            self.coverage.0 == self.lits()[0].span.start.line && self.coverage.1 == self.lits()[
                self.lits().len() - 1
            ].span.start.line
        }
    }

    /// Content length of literal `i`.
    pub open spec fn content_len(self, i: int) -> int {
        self.lits()[i].content_spec().len() as int
    }

    /// Byte offset in the virtual text where literal `i`'s content begins:
    /// the contents of all earlier literals plus one separating newline each.
    pub open spec fn vstart(self, i: int) -> int
        decreases i,
    {
        if i <= 0 {
            0
        } else {
            self.vstart(i - 1) + self.content_len(i - 1) + 1
        }
    }

    /// Total length of the virtual text.
    pub open spec fn total_len(self) -> int {
        if self.lits().len() == 0 {
            0
        } else {
            self.vstart(self.lits().len() - 1) + self.content_len(self.lits().len() - 1)
        }
    }

    /// How a byte sequence must look to be this set's virtual text: each
    /// literal's content at its `vstart` offset, single newlines between.
    pub open spec fn vt_structure(self, vt: Seq<u8>) -> bool {
        &&& vt.len() == self.total_len()
        &&& forall|i: int|
            0 <= i < self.lits().len() ==> vt.subrange(
                #[trigger] self.vstart(i),
                self.vstart(i) + self.content_len(i),
            ) == self.lits()[i].content_spec()
        &&& forall|i: int|
            0 <= i < self.lits().len() - 1 ==> vt[#[trigger] self.vstart(i)
                + self.content_len(i)] == 10u8
    }

    /// The literals' source lines are consecutive: literal `i` sits exactly
    /// `i` lines below the first literal of the set.
    pub proof fn lemma_set_lines(self, i: int)
        requires
            self.wf(),
            0 <= i < self.lits().len(),
        ensures
            self.lits()[i].span.start.line == self.lits()[0].span.start.line + i,
        decreases i,
    {
        if i > 0 {
            self.lemma_set_lines(i - 1);
            assert(self.lits()[i - 1 + 1].span.start.line == self.lits()[i - 1].span.start.line
                + 1);
        }
    }

    /// `vstart` grows strictly along the literal list, and every content
    /// window of an earlier literal ends before a later one begins.
    pub proof fn lemma_vstart_upto(self, j: int)
        ensures
            forall|i: int|
                0 <= i < j ==> #[trigger] self.vstart(i) + self.content_len(i) + 1
                    <= self.vstart(j),
            forall|i: int| 0 <= i <= j ==> #[trigger] self.vstart(i) >= 0,
        decreases
                (if j > 0 {
                    j
                } else {
                    0
                }),
    {
        if j > 0 {
            self.lemma_vstart_upto(j - 1);
            assert(self.vstart(j) == self.vstart(j - 1) + self.content_len(j - 1) + 1);
            assert(self.content_len(j - 1) >= 0);
        }
    }

    /// Initiate a new set based on the first literal.
    pub fn from(literal: AnnotatedLiteral) -> (r: Self)
        requires
            literal.wf(),
        ensures
            r.wf(),
            r.lits() =~= seq![literal],
            r.coverage.0 == literal.span.start.line,
            r.coverage.1 == literal.span.start.line,
    {
        let line: usize = literal.span.start.line;
        let mut literals: Vec<AnnotatedLiteral> = Vec::new();
        literals.push(literal);
        Self { literals, coverage: (line, line) }
    }

    /// Add a literal if it is line-adjacent to the set's current coverage:
    /// appended when it starts exactly one line past the last covered line,
    /// prepended when it ends exactly one line before the first. A first
    /// literal is always accepted. Otherwise the literal is handed back
    /// unchanged in the `Err` variant and the set is unmodified.
    pub fn add_adjacent(&mut self, literal: AnnotatedLiteral) -> (r: Result<
        (),
        AnnotatedLiteral,
    >)
        requires
            old(self).wf(),
            literal.wf(),
        ensures
            final(self).wf(),
            (r is Ok) <==> (old(self).lits().len() == 0 || literal.span.start.line
                == old(self).coverage.1 + 1 || literal.span.start.line + 1
                == old(self).coverage.0),
            r matches Err(l) ==> l == literal && *final(self) == *old(self),
            old(self).lits().len() == 0 && r is Ok ==> final(self).lits() =~= seq![literal],
            old(self).lits().len() > 0 && literal.span.start.line == old(self).coverage.1 + 1
                ==> final(self).lits() =~= old(self).lits().push(literal)
                && final(self).coverage.0 == old(self).coverage.0 && final(self).coverage.1
                == literal.span.end.line,
            old(self).lits().len() > 0 && literal.span.start.line + 1 == old(self).coverage.0
                ==> final(self).lits() =~= seq![literal] + old(self).lits()
                && final(self).coverage.0 == literal.span.start.line && final(self).coverage.1
                == old(self).coverage.1,
    {
        let line: usize = literal.span.start.line;
        proof {
            if old(self).lits().len() > 0 {
                old(self).lemma_set_lines(old(self).lits().len() - 1);
            }
        }
        if self.literals.len() == 0 {
            self.coverage = (line, line);
            self.literals.push(literal);
            return Ok(());
        }
        if line >= 1 && line - 1 == self.coverage.1 {
            self.coverage.1 = line;
            self.literals.push(literal);
            proof {
                assert(self.lits() =~= old(self).lits().push(literal));
                assert(forall|i: int|
                    0 <= i < old(self).lits().len() ==> self.lits()[i] == #[trigger] old(self).lits()[i]);
                assert(self.lits()[self.lits().len() - 1] == literal);
            }
            return Ok(());
        }
        if self.coverage.0 >= 1 && line == self.coverage.0 - 1 {
            self.coverage.0 = line;
            self.literals.insert(0, literal);
            proof {
                assert(self.lits() =~= seq![literal] + old(self).lits());
                assert(self.lits()[0] == literal);
                assert forall|i: int|
                    0 <= i < self.lits().len() - 1 implies (#[trigger] self.lits()[i
                    + 1]).span.start.line == self.lits()[i].span.start.line + 1 by {
                    if i == 0 {
                        assert(self.lits()[1] == old(self).lits()[0]);
                    } else {
                        assert(self.lits()[i + 1] == old(self).lits()[i]);
                        assert(self.lits()[i] == old(self).lits()[i - 1]);
                        assert(old(self).lits()[(i - 1) + 1].span.start.line == old(self).lits()[i - 1].span.start.line + 1);
                    }
                };
                assert forall|i: int| 0 <= i < self.lits().len() implies (
                #[trigger] self.lits()[i]).wf() by {
                    if i > 0 {
                        assert(self.lits()[i] == old(self).lits()[i - 1]);
                    }
                };
            }
            return Ok(());
        }
        Err(literal)
    }

    /// Number of literals in the set.
    pub fn len(&self) -> (r: usize)
        ensures
            r == self.lits().len(),
    {
        self.literals.len()
    }

    /// Borrow the ordered literals.
    pub fn literals(&self) -> (r: &Vec<AnnotatedLiteral>)
        ensures
            r@ == self.lits(),
    {
        &self.literals
    }
}

/// The source bytes a span covers within one literal: the literal's
/// rendered text re-sliced by source columns.
pub open spec fn span_source_slice(l: AnnotatedLiteral, sp: Span) -> Seq<u8> {
    l.rendered@.subrange(
        sp.start.column - l.span.start.column,
        sp.end.column - l.span.start.column,
    )
}

/// A consistent literal's content length equals its `len` field.
pub proof fn lemma_content_len(l: AnnotatedLiteral)
    requires
        l.padding_consistent(),
    ensures
        l.content_spec().len() == l.len,
{
}

impl ConsecutiveLiteralSet {
    /// Virtual offset `offset` resolves within literal `i`: it lies in the
    /// window that spans the literal's content plus the following separator
    /// position.
    pub open spec fn is_loc(self, offset: int, i: int) -> bool {
        &&& 0 <= i < self.lits().len()
        &&& self.vstart(i) <= offset <= self.vstart(i) + self.content_len(i)
    }

    /// Source column where literal `i`'s content starts.
    pub open spec fn content_start_col(self, i: int) -> int {
        self.lits()[i].span.start.column + self.lits()[i].pre
    }

    /// Source column one past literal `i`'s content.
    pub open spec fn content_end_col(self, i: int) -> int {
        self.content_start_col(i) + self.content_len(i)
    }

    /// The source location of virtual offset `offset` within literal `i`:
    /// the literal's line, and its content start column advanced by the
    /// local offset (padding re-included, as source coordinates count it).
    pub open spec fn loc_at(self, i: int, offset: int) -> LineColumn {
        LineColumn {
            line: self.lits()[i].span.start.line,
            column: (self.content_start_col(i) + (offset - self.vstart(i))) as usize,
        }
    }

    /// A virtual offset resolves within at most one literal.
    pub proof fn lemma_loc_unique(self, offset: int, i: int, j: int)
        requires
            self.is_loc(offset, i),
            self.is_loc(offset, j),
        ensures
            i == j,
    {
        if i < j {
            self.lemma_vstart_upto(j);
        } else if j < i {
            self.lemma_vstart_upto(i);
        }
    }

    /// Resolution respects order: a smaller offset never resolves to a
    /// later literal.
    pub proof fn lemma_loc_ordered(self, o1: int, i: int, o2: int, j: int)
        requires
            self.is_loc(o1, i),
            self.is_loc(o2, j),
            o1 <= o2,
        ensures
            i <= j,
    {
        if j < i {
            self.lemma_vstart_upto(i);
        }
    }

    /// Everything a consistent literal promises about its columns: the
    /// content window sits inside the literal's source extent.
    proof fn lemma_cols_in_extent(self, i: int)
        requires
            self.wf(),
            0 <= i < self.lits().len(),
        ensures
            self.content_len(i) == self.lits()[i].len,
            self.content_end_col(i) + 1 <= self.lits()[i].span.end.column,
    {
        lemma_content_len(self.lits()[i]);
    }

    /// The core forward mapping: translate a linear offset into the virtual
    /// text to the literal it falls in and the exact source line/column.
    ///
    /// An offset that lands on the newline separator between two literals
    /// resolves to the end of the earlier literal's content. Fails with
    /// `OutOfBounds` exactly when the offset exceeds the virtual text's
    /// total length (or the set is empty).
    pub fn offset_to_location(&self, offset: usize) -> (r: Result<
        (usize, LineColumn),
        CoreError,
    >)
        requires
            self.wf(),
        ensures
            (r is Ok) <==> (self.lits().len() > 0 && offset <= self.total_len()),
            r matches Ok((i, lc)) ==> self.is_loc(offset as int, i as int) && lc == self.loc_at(
                i as int,
                offset as int,
            ),
            r matches Err(e) ==> e == CoreError::OutOfBounds,
    {
        let n: usize = self.literals.len();
        let mut idx: usize = 0;
        let mut remaining: usize = offset;
        while idx < n
            invariant
                self.wf(),
                n == self.lits().len(),
                idx <= n,
                remaining == offset - self.vstart(idx as int),
                offset >= self.vstart(idx as int),
                idx > 0 ==> offset > self.vstart(idx as int - 1) + self.content_len(
                    idx as int - 1,
                ),
            decreases n - idx,
        {
            let lit: &AnnotatedLiteral = &self.literals[idx];
            let c: usize = lit.len;
            proof {
                self.lemma_cols_in_extent(idx as int);
            }
            if remaining <= c {
                proof {
                    self.lemma_vstart_upto(n as int - 1);
                    assert(self.is_loc(offset as int, idx as int));
                }
                let column: usize = lit.span.start.column + lit.pre + remaining;
                return Ok((idx, LineColumn { line: lit.span.start.line, column }));
            }
            remaining = remaining - (c + 1);
            idx = idx + 1;
        }
        proof {
            if n > 0 {
                assert(offset > self.vstart(n as int - 1) + self.content_len(n as int - 1));
            }
        }
        Err(CoreError::OutOfBounds)
    }
}

impl ConsecutiveLiteralSet {
    /// The shape of a bulk-mapping result for the virtual range
    /// `[offset, end_off)` that starts in literal `i` and ends in literal
    /// `j`: one entry per literal touched, in source order; the first entry
    /// starts at the resolved start location, every interior entry covers
    /// its literal's full content, and the last entry ends at the resolved
    /// end location.
    pub open spec fn spans_shape(
        self,
        offset: int,
        end_off: int,
        i: int,
        j: int,
        r: Seq<(usize, Span)>,
    ) -> bool {
        &&& i <= j
        &&& r.len() == j - i + 1
        &&& forall|k: int| 0 <= k < r.len() ==> (#[trigger] r[k]).0 as int == i + k
        &&& forall|k: int|
            0 <= k < r.len() ==> (#[trigger] r[k]).1.start.line == self.lits()[
                i + k
            ].span.start.line && r[k].1.end.line == self.lits()[i + k].span.start.line
        &&& forall|k: int|
            0 <= k < r.len() ==> (#[trigger] r[k]).1.start.column as int == if k == 0 {
                self.content_start_col(i) + (offset - self.vstart(i))
            } else {
                self.content_start_col(i + k)
            }
        &&& forall|k: int|
            0 <= k < r.len() ==> (#[trigger] r[k]).1.end.column as int == if k == j - i {
                self.content_start_col(j) + (end_off - self.vstart(j))
            } else {
                self.content_end_col(i + k)
            }
    }

    /// Compute the source span of literal `i`'s full content.
    fn content_span(&self, idx: usize) -> (sp: Span)
        requires
            self.wf(),
            idx < self.lits().len(),
        ensures
            sp.start.line == self.lits()[idx as int].span.start.line,
            sp.end.line == self.lits()[idx as int].span.start.line,
            sp.start.column as int == self.content_start_col(idx as int),
            sp.end.column as int == self.content_end_col(idx as int),
    {
        proof {
            self.lemma_cols_in_extent(idx as int);
        }
        let lit: &AnnotatedLiteral = &self.literals[idx];
        let scol: usize = lit.span.start.column + lit.pre;
        Span {
            start: LineColumn { line: lit.span.start.line, column: scol },
            end: LineColumn { line: lit.span.start.line, column: scol + lit.len },
        }
    }

    /// The core backward mapping for patch generation: convert the virtual
    /// range `[offset, offset + length)` to an ordered list of
    /// `(literal_index, Span)` pairs, one per literal touched.
    ///
    /// Reports `OutOfBounds` exactly when the range does not fit the
    /// virtual text (or its end cannot be represented); callers drop the
    /// affected suggestion and go on, never abort the pass.
    pub fn linear_coverage_to_spans(&self, offset: usize, length: usize) -> (r: Result<
        Vec<(usize, Span)>,
        CoreError,
    >)
        requires
            self.wf(),
        ensures
            (r is Ok) <==> (self.lits().len() > 0 && offset + length <= self.total_len()
                && offset + length <= usize::MAX),
            r matches Err(e) ==> e == CoreError::OutOfBounds,
            r matches Ok(spans) ==> exists|i: int, j: int|
                #![trigger self.is_loc(offset as int, i), self.is_loc(offset as int + length as int, j)]
                self.is_loc(offset as int, i) && self.is_loc(offset as int + length as int, j)
                    && self.spans_shape(
                    offset as int,
                    offset as int + length as int,
                    i,
                    j,
                    spans@,
                ),
    {
        let mut acc: Vec<(usize, Span)> = Vec::new();
        if length > 0 && usize::MAX - offset < length {
            return Err(CoreError::OutOfBounds);
        }
        let end_off: usize = offset + length;
        let start_res: Result<(usize, LineColumn), CoreError> = self.offset_to_location(offset);
        let end_res: Result<(usize, LineColumn), CoreError> = self.offset_to_location(end_off);
        match (start_res, end_res) {
            (Ok((si, s_lc)), Ok((ei, e_lc))) => {
                proof {
                    self.lemma_loc_ordered(offset as int, si as int, end_off as int, ei as int);
                }
                if si == ei {
                    proof {
                        self.lemma_loc_unique(offset as int, si as int, si as int);
                    }
                    acc.push((si, Span { start: s_lc, end: e_lc }));
                    proof {
                        assert(self.spans_shape(
                            offset as int,
                            end_off as int,
                            si as int,
                            ei as int,
                            acc@,
                        ));
                    }
                    return Ok(acc);
                }
                let first_sp: Span = self.content_span(si);
                acc.push((si, Span { start: s_lc, end: first_sp.end }));
                let mut k: usize = si + 1;
                while k < ei
                    invariant
                        self.wf(),
                        si < ei,
                        si < k <= ei,
                        ei < self.lits().len(),
                        acc@.len() == k - si,
                        self.is_loc(offset as int, si as int),
                        self.is_loc(end_off as int, ei as int),
                        acc@[0].0 == si && acc@[0].1.start == self.loc_at(
                            si as int,
                            offset as int,
                        ) && acc@[0].1.start.line == self.lits()[si as int].span.start.line
                            && acc@[0].1.end.line == self.lits()[si as int].span.start.line
                            && acc@[0].1.end.column as int == self.content_end_col(si as int),
                        forall|t: int|
                            1 <= t < acc@.len() ==> (#[trigger] acc@[t]).0 as int == si + t
                                && acc@[t].1.start.line == self.lits()[
                                si + t
                            ].span.start.line && acc@[t].1.end.line == self.lits()[
                                si + t
                            ].span.start.line && acc@[t].1.start.column as int
                                == self.content_start_col(si + t) && acc@[t].1.end.column as int
                                == self.content_end_col(si + t),
                    decreases ei - k,
                {
                    let sp: Span = self.content_span(k);
                    acc.push((k, sp));
                    k = k + 1;
                }
                let last_sp: Span = self.content_span(ei);
                acc.push((ei, Span { start: last_sp.start, end: e_lc }));
                proof {
                    assert(self.spans_shape(
                        offset as int,
                        end_off as int,
                        si as int,
                        ei as int,
                        acc@,
                    ));
                }
                Ok(acc)
            },
            _ => Err(CoreError::OutOfBounds),
        }
    }
}

impl ConsecutiveLiteralSet {
    /// Mapping round trip: for a valid virtual range `[offset, end_off)`
    /// resolved to spans by the bulk mapping, re-slicing the original source
    /// at each returned span reproduces exactly the virtual-text segment of
    /// that literal. The segments tile `[offset, end_off)` in order — the
    /// first starts at `offset`, the last ends at `end_off`, and between two
    /// consecutive segments the virtual text holds exactly the single
    /// separating newline.
    pub proof fn lemma_coverage_maps_text(
        self,
        vt: Seq<u8>,
        offset: int,
        end_off: int,
        i: int,
        j: int,
        r: Seq<(usize, Span)>,
    )
        requires
            self.wf(),
            self.vt_structure(vt),
            offset <= end_off,
            self.is_loc(offset, i),
            self.is_loc(end_off, j),
            self.spans_shape(offset, end_off, i, j, r),
        ensures
            forall|k: int|
                0 <= k < r.len() ==> span_source_slice(self.lits()[i + k], (#[trigger] r[k]).1)
                    == vt.subrange(
                    if k == 0 {
                        offset
                    } else {
                        self.vstart(i + k)
                    },
                    if k == j - i {
                        end_off
                    } else {
                        self.vstart(i + k) + self.content_len(i + k)
                    },
                ),
            forall|k: int|
                0 <= k < r.len() - 1 ==> vt[#[trigger] self.vstart(i + k) + self.content_len(
                    i + k,
                )] == 10u8,
    {
        let n = self.lits().len();
        self.lemma_vstart_upto(n - 1);
        self.lemma_vstart_upto(j);
        assert(self.vstart(j) + self.content_len(j) <= self.total_len()) by {
            if j < n - 1 {
                assert(self.vstart(j) + self.content_len(j) + 1 <= self.vstart(n - 1));
                assert(self.content_len(n - 1) >= 0);
            }
        };
        assert forall|k: int| 0 <= k < r.len() implies span_source_slice(
            self.lits()[i + k],
            (#[trigger] r[k]).1,
        ) == vt.subrange(
            if k == 0 {
                offset
            } else {
                self.vstart(i + k)
            },
            if k == j - i {
                end_off
            } else {
                self.vstart(i + k) + self.content_len(i + k)
            },
        ) by {
            let li = i + k;
            self.lemma_cols_in_extent(li);
            let lit = self.lits()[li];
            let a: int = if k == 0 {
                offset
            } else {
                self.vstart(li)
            };
            let b: int = if k == j - i {
                end_off
            } else {
                self.vstart(li) + self.content_len(li)
            };
            let la = a - self.vstart(li);
            let lb = b - self.vstart(li);
            if k < j - i {
                assert(self.vstart(li) + self.content_len(li) + 1 <= self.vstart(j));
            }
            assert(0 <= la <= lb <= self.content_len(li));
            assert(b <= vt.len());
            assert(vt.subrange(self.vstart(li), self.vstart(li) + self.content_len(li))
                == lit.content_spec());
            assert(r[k].1.start.column as int == self.content_start_col(li) + la);
            assert(r[k].1.end.column as int == self.content_start_col(li) + lb);
            assert(span_source_slice(lit, r[k].1) == lit.rendered@.subrange(
                lit.pre + la,
                lit.pre + lb,
            ));
            if self.content_len(li) > 0 {
                assert(lit.content_spec() == lit.rendered@.subrange(
                    lit.pre as int,
                    lit.pre + lit.len,
                ));
                assert forall|t: int| 0 <= t < lb - la implies lit.rendered@.subrange(
                    lit.pre + la,
                    lit.pre + lb,
                )[t] == vt.subrange(a, b)[t] by {
                    assert(lit.content_spec()[la + t] == vt.subrange(
                        self.vstart(li),
                        self.vstart(li) + self.content_len(li),
                    )[la + t]);
                    assert(vt.subrange(
                        self.vstart(li),
                        self.vstart(li) + self.content_len(li),
                    )[la + t] == vt[self.vstart(li) + la + t]);
                    assert(vt.subrange(a, b)[t] == vt[a + t]);
                };
                assert(lit.rendered@.subrange(lit.pre + la, lit.pre + lb) =~= vt.subrange(a, b));
            } else {
                assert(la == 0 && lb == 0);
                assert(lit.rendered@.subrange(lit.pre + la, lit.pre + lb) =~= vt.subrange(a, b));
            }
        };
        assert forall|k: int| 0 <= k < r.len() - 1 implies vt[#[trigger] self.vstart(i + k)
            + self.content_len(i + k)] == 10u8 by {
            assert(i + k < j);
            assert(j <= n - 1);
        };
    }
}

impl Default for ConsecutiveLiteralSet {
    /// The empty set; it accepts any first literal.
    fn default() -> (r: Self)
        ensures
            r.wf(),
            r.lits().len() == 0,
            r.coverage == (0usize, 0usize),
    {
        Self { literals: Vec::new(), coverage: (0, 0) }
    }
}

impl PartialEq for ConsecutiveLiteralSet {
    fn eq(&self, other: &Self) -> (r: bool) {
        let mut i: usize = 0;
        let n: usize = self.literals.len();
        if n != other.literals.len() {
            return false;
        }
        if !(self.coverage.0 == other.coverage.0 && self.coverage.1 == other.coverage.1) {
            return false;
        }
        while i < n
            invariant
                i <= n,
                n == self.lits().len(),
                n == other.lits().len(),
                forall|k: int|
                    0 <= k < i ==> same_literal(#[trigger] self.lits()[k], other.lits()[k]),
            decreases n - i,
        {
            let same: bool = self.literals[i] == other.literals[i];
            if !same {
                return false;
            }
            i = i + 1;
        }
        true
    }
}

impl vstd::std_specs::cmp::PartialEqSpecImpl for ConsecutiveLiteralSet {
    open spec fn obeys_eq_spec() -> bool {
        true
    }

    open spec fn eq_spec(&self, other: &Self) -> bool {
        &&& self.lits().len() == other.lits().len()
        &&& forall|i: int|
            0 <= i < self.lits().len() ==> same_literal(
                #[trigger] self.lits()[i],
                other.lits()[i],
            )
        &&& self.coverage == other.coverage
    }
}

impl ConsecutiveLiteralSet {
    /// Build the virtual text: each literal's content in order, with a
    /// single newline between consecutive literals.
    pub fn virtual_text(&self) -> (vt: Vec<u8>)
        ensures
            self.vt_structure(vt@),
    {
        let mut vt: Vec<u8> = Vec::new();
        let n: usize = self.literals.len();
        let mut idx: usize = 0;
        while idx < n
            invariant
                idx <= n,
                n == self.lits().len(),
                vt@.len() == if idx == 0 {
                    0int
                } else {
                    self.vstart(idx as int - 1) + self.content_len(idx as int - 1)
                },
                forall|i: int|
                    0 <= i < idx ==> vt@.subrange(
                        #[trigger] self.vstart(i),
                        self.vstart(i) + self.content_len(i),
                    ) == self.lits()[i].content_spec(),
                forall|i: int|
                    0 <= i < idx - 1 ==> vt@[#[trigger] self.vstart(i) + self.content_len(i)]
                        == 10u8,
            decreases n - idx,
        {
            let ghost pre_vt = vt@;
            proof {
                self.lemma_vstart_upto(idx as int);
                assert(self.vstart(idx as int) == if idx == 0 {
                    0int
                } else {
                    self.vstart(idx as int - 1) + self.content_len(idx as int - 1) + 1
                });
            }
            if idx > 0 {
                vt.push(10u8);
            }
            let lit: &AnnotatedLiteral = &self.literals[idx];
            let ghost mid_vt = vt@;
            if lit.len > 0 && lit.pre <= lit.rendered.len() && lit.rendered.len() - lit.pre
                >= lit.len {
                append_range(&mut vt, &lit.rendered, lit.pre, lit.pre + lit.len);
            } else {
                proof {
                    assert(vt@ =~= mid_vt + lit.content_spec());
                }
            }
            proof {
                assert(vt@.len() == self.vstart(idx as int) + self.content_len(idx as int));
                assert(vt@.subrange(
                    self.vstart(idx as int),
                    self.vstart(idx as int) + self.content_len(idx as int),
                ) =~= self.lits()[idx as int].content_spec());
                assert(forall|i: int|
                    0 <= i < idx ==> vt@.subrange(
                        #[trigger] self.vstart(i),
                        self.vstart(i) + self.content_len(i),
                    ) =~= pre_vt.subrange(self.vstart(i), self.vstart(i) + self.content_len(i)));
            }
            idx = idx + 1;
        }
        vt
    }
}

} // verus!
