//! Reflow documentation comments to a desired line width.
//!
//! A markdown event scan over a chunk's virtual text yields paragraph-like
//! units and the inline-formatted spans that must never be split; each unit
//! is then greedily word-wrapped and, where the rewrap differs from the
//! original, a suggestion anchored to the source is emitted.

use vstd::prelude::*;
use crate::span::{Span, Range, CoreError};
use crate::literalset::is_blank_byte;
use crate::documentation::{CheckableChunk, Documentation};
use crate::suggestion::{Detector, ContentOrigin, Suggestion, SuggestionSet};
use crate::util::eq_range;
use pulldown_cmark::{Event, Options, Parser, Tag};

verus! {

/// Parameters for wrapping doc comments.
#[derive(Debug, Clone, Copy)]
pub struct ReflowConfig {
    /// Hard limit for the absolute length of emitted lines.
    pub max_line_length: usize,
}

impl Default for ReflowConfig {
    /// 70 columns unless configured otherwise.
    fn default() -> (r: Self)
        ensures
            r.max_line_length == 70,
    {
        Self { max_line_length: 70 }
    }
}

/// The reflow checker: one detector among the pluggable backends.
#[derive(Debug)]
pub struct Reflow;

/// The classes of markdown events the reflow engine distinguishes.
#[derive(Clone, Copy, Debug, PartialEq, Eq, Structural)]
pub enum MdEventKind {
    /// A paragraph opens.
    ParagraphStart,
    /// A paragraph closes.
    ParagraphEnd,
    /// An inline-formatted construct (emphasis, strong, strikethrough,
    /// link, image) opens; its covered range must not be split.
    InlineStart,
    /// An inline-formatted construct closes.
    InlineEnd,
    /// A structural boundary that forces a unit break: any other block
    /// construct, a hard break, or a horizontal rule.
    Boundary,
    /// Anything else; ignored by the engine.
    Neutral,
}

/// One markdown event with the byte range of the construct it covers.
#[derive(Clone, Copy, Debug, PartialEq, Eq, Structural)]
pub struct MdEvent {
    pub kind: MdEventKind,
    pub start: usize,
    pub end: usize,
}

/// The markdown event scan of a byte text, as the markdown parser reports
/// it. A function of the text alone.
pub uninterp spec fn md_events_of(text: Seq<u8>) -> Seq<MdEvent>;

#[verifier::external_type_specification]
#[verifier::external_body]
pub struct ExTag<'a>(Tag<'a>);

/// Relies on `pulldown_cmark::Tag`: tells the tag's variants apart, sorting
/// each into the event classes above.
#[verifier::external_body]
fn tag_kind(tag: &Tag<'_>, start: bool) -> MdEventKind {
    match (tag, start) {
        (Tag::Paragraph, true) => MdEventKind::ParagraphStart,
        (Tag::Paragraph, false) => MdEventKind::ParagraphEnd,
        (Tag::Emphasis | Tag::Strong | Tag::Strikethrough | Tag::Link(..) | Tag::Image(..), true) => MdEventKind::InlineStart,
        (Tag::Emphasis | Tag::Strong | Tag::Strikethrough | Tag::Link(..) | Tag::Image(..), false) => MdEventKind::InlineEnd,
        (_, true) => MdEventKind::Boundary,
        (_, false) => MdEventKind::Neutral,
    }
}

/// Relies on `pulldown_cmark::Parser::new_ext` with all options and its
/// offset iterator: a full markdown event scan whose ranges are byte
/// offsets into the parsed text, hence within it. Input that is not valid
/// UTF-8 yields the empty scan.
#[verifier::external_body]
fn md_scan(text: &Vec<u8>) -> (r: Vec<MdEvent>)
    ensures
        r@ == md_events_of(text@),
        forall|k: int| 0 <= k < r@.len() ==> (#[trigger] r@[k]).start <= r@[k].end <= text@.len(),
{
    let mut out: Vec<MdEvent> = Vec::new();
    if let Ok(s) = std::str::from_utf8(text.as_slice()) {
        for (ev, range) in Parser::new_ext(s, Options::all()).into_offset_iter() {
            let kind = match ev {
                Event::Start(t) => tag_kind(&t, true),
                Event::End(t) => tag_kind(&t, false),
                Event::HardBreak | Event::Rule => MdEventKind::Boundary,
                _ => MdEventKind::Neutral,
            };
            out.push(MdEvent { kind, start: range.start, end: range.end });
        }
    }
    out
}

/// The running state of the unit scan: collected units and unbreakable
/// ranges, the inline nesting depth, the currently open unit (its start and
/// the furthest paragraph end seen), and whether a paragraph is open.
pub struct ScanState {
    pub units: Seq<Range>,
    pub ubs: Seq<Range>,
    pub depth: int,
    pub open_start: Option<usize>,
    pub end_so_far: usize,
    pub in_para: bool,
}

/// Scan state before any event.
pub open spec fn scan_init() -> ScanState {
    ScanState {
        units: Seq::empty(),
        ubs: Seq::empty(),
        depth: 0,
        open_start: None,
        end_so_far: 0,
        in_para: false,
    }
}

/// One step of the unit scan.
///
/// Only the outermost (depth-0) inline construct is recorded as
/// unbreakable: nested ones are contained in it by construction and need
/// no separate entry. Sibling depth-0 covers never overlap and arrive in
/// document order, so the recorded list stays sorted and disjoint; a
/// stray cover that would break that order could only come from a
/// malformed scan and is dropped. Consecutive paragraphs merge into one
/// unit; a boundary closes the open unit (a boundary inside a paragraph,
/// such as a hard break, reopens a fresh unit right after itself).
pub open spec fn scan_step(st: ScanState, ev: MdEvent) -> ScanState {
    match ev.kind {
        MdEventKind::InlineStart => ScanState {
            ubs: if st.depth == 0 && (st.ubs.len() == 0 || st.ubs.last().end <= ev.start) {
                st.ubs.push(Range { start: ev.start, end: ev.end })
            } else {
                st.ubs
            },
            depth: st.depth + 1,
            ..st
        },
        MdEventKind::InlineEnd => ScanState {
            depth: if st.depth > 0 {
                st.depth - 1
            } else {
                0
            },
            ..st
        },
        MdEventKind::ParagraphStart => ScanState {
            in_para: true,
            open_start: if st.open_start is None {
                Some(ev.start)
            } else {
                st.open_start
            },
            end_so_far: if st.open_start is None {
                ev.start
            } else {
                st.end_so_far
            },
            ..st
        },
        MdEventKind::ParagraphEnd => ScanState {
            in_para: false,
            end_so_far: if st.open_start is Some && ev.end > st.end_so_far {
                ev.end
            } else {
                st.end_so_far
            },
            ..st
        },
        MdEventKind::Boundary => match st.open_start {
            Some(o) => if st.in_para {
                ScanState {
                    units: st.units.push(
                        Range {
                            start: o,
                            end: if ev.start > o {
                                ev.start
                            } else {
                                o
                            },
                        },
                    ),
                    open_start: Some(ev.end),
                    end_so_far: ev.end,
                    ..st
                }
            } else {
                ScanState {
                    units: st.units.push(
                        Range {
                            start: o,
                            end: if st.end_so_far > o {
                                st.end_so_far
                            } else {
                                o
                            },
                        },
                    ),
                    open_start: None,
                    ..st
                }
            },
            None => st,
        },
        MdEventKind::Neutral => st,
    }
}

/// The scan state after the first `n` events.
pub open spec fn scan_fold(events: Seq<MdEvent>, n: int) -> ScanState
    decreases n,
{
    if n <= 0 {
        scan_init()
    } else {
        scan_step(scan_fold(events, n - 1), events[n - 1])
    }
}

/// The units and unbreakable ranges of an event sequence: the fold over all
/// events, with a still-open unit flushed at the end.
pub open spec fn scan_result(events: Seq<MdEvent>) -> (Seq<Range>, Seq<Range>) {
    let st = scan_fold(events, events.len() as int);
    (
        match st.open_start {
            Some(o) => st.units.push(
                Range {
                    start: o,
                    end: if st.end_so_far > o {
                        st.end_so_far
                    } else {
                        o
                    },
                },
            ),
            None => st.units,
        },
        st.ubs,
    )
}

/// Run the unit scan over a chunk's markdown events: paragraph-like units
/// to consider for rewrapping, and the outermost unbreakable inline ranges.
pub fn scan_chunk(events: &Vec<MdEvent>, text_len: usize) -> (r: (Vec<Range>, Vec<Range>))
    requires
        forall|k: int|
            0 <= k < events@.len() ==> (#[trigger] events@[k]).start <= events@[k].end
                <= text_len,
    ensures
        r.0@ == scan_result(events@).0,
        r.1@ == scan_result(events@).1,
        forall|k: int|
            0 <= k < r.0@.len() ==> (#[trigger] r.0@[k]).start <= r.0@[k].end <= text_len,
        forall|k: int|
            0 <= k < r.1@.len() ==> (#[trigger] r.1@[k]).start <= r.1@[k].end <= text_len,
        forall|k: int| 0 <= k < r.1@.len() - 1 ==> (#[trigger] r.1@[k]).end <= r.1@[k + 1].start,
{
    let n: usize = events.len();
    let mut units: Vec<Range> = Vec::new();
    let mut ubs: Vec<Range> = Vec::new();
    let mut depth: usize = 0;
    let mut open_start: Option<usize> = None;
    let mut end_so_far: usize = 0;
    let mut in_para: bool = false;
    let mut i: usize = 0;
    while i < n
        invariant
            i <= n,
            n == events@.len(),
            forall|k: int|
                0 <= k < events@.len() ==> (#[trigger] events@[k]).start <= events@[k].end
                    <= text_len,
            scan_fold(events@, i as int) == (ScanState {
                units: units@,
                ubs: ubs@,
                depth: depth as int,
                open_start,
                end_so_far,
                in_para,
            }),
            depth <= i,
            forall|k: int|
                0 <= k < units@.len() ==> (#[trigger] units@[k]).start <= units@[k].end
                    <= text_len,
            forall|k: int|
                0 <= k < ubs@.len() ==> (#[trigger] ubs@[k]).start <= ubs@[k].end <= text_len,
            forall|k: int|
                0 <= k < ubs@.len() - 1 ==> (#[trigger] ubs@[k]).end <= ubs@[k + 1].start,
            open_start matches Some(o) ==> o <= text_len,
            end_so_far <= text_len,
        decreases n - i,
    {
        let ev: MdEvent = events[i];
        proof {
            assert(scan_fold(events@, i as int + 1) == scan_step(
                scan_fold(events@, i as int),
                events@[i as int],
            ));
        }
        match ev.kind {
            MdEventKind::InlineStart => {
                if depth == 0 && (ubs.len() == 0 || ubs[ubs.len() - 1].end <= ev.start) {
                    ubs.push(Range { start: ev.start, end: ev.end });
                }
                depth = depth + 1;
            },
            MdEventKind::InlineEnd => {
                if depth > 0 {
                    depth = depth - 1;
                }
            },
            MdEventKind::ParagraphStart => {
                in_para = true;
                if open_start.is_none() {
                    open_start = Some(ev.start);
                    end_so_far = ev.start;
                }
            },
            MdEventKind::ParagraphEnd => {
                in_para = false;
                if open_start.is_some() && ev.end > end_so_far {
                    end_so_far = ev.end;
                }
            },
            MdEventKind::Boundary => {
                match open_start {
                    Some(o) => {
                        if in_para {
                            let e: usize = if ev.start > o {
                                ev.start
                            } else {
                                o
                            };
                            units.push(Range { start: o, end: e });
                            open_start = Some(ev.end);
                            end_so_far = ev.end;
                        } else {
                            let e: usize = if end_so_far > o {
                                end_so_far
                            } else {
                                o
                            };
                            units.push(Range { start: o, end: e });
                            open_start = None;
                        }
                    },
                    None => {},
                }
            },
            MdEventKind::Neutral => {},
        }
        i = i + 1;
    }
    match open_start {
        Some(o) => {
            let e: usize = if end_so_far > o {
                end_so_far
            } else {
                o
            };
            units.push(Range { start: o, end: e });
        },
        None => {},
    }
    (units, ubs)
}

/// Byte position `p` lies inside one of the ranges.
pub open spec fn inside_ub(ubs: Seq<Range>, p: int) -> bool {
    exists|u: int| 0 <= u < ubs.len() && (#[trigger] ubs[u]).start <= p < ubs[u].end
}

/// Executable mirror of `inside_ub`.
fn is_inside_ub(ubs: &Vec<Range>, p: usize) -> (r: bool)
    ensures
        r == inside_ub(ubs@, p as int),
{
    let n: usize = ubs.len();
    let mut i: usize = 0;
    while i < n
        invariant
            i <= n,
            n == ubs@.len(),
            forall|u: int| 0 <= u < i ==> !((#[trigger] ubs@[u]).start <= p < ubs@[u].end),
        decreases n - i,
    {
        if ubs[i].start <= p && p < ubs[i].end {
            proof {
                assert((#[trigger] ubs@[i as int]).start <= p < ubs@[i as int].end);
            }
            return true;
        }
        i = i + 1;
    }
    false
}

/// A byte that glues to its neighbours when wrapping: any non-whitespace
/// byte, and any byte inside an unbreakable range (so an unbreakable span
/// always travels as one token).
pub open spec fn glue_at(text: Seq<u8>, ubs: Seq<Range>, p: int) -> bool {
    !is_blank_byte(text[p]) || inside_ub(ubs, p)
}

/// Running state of the atom scan: closed atoms, and the start of the
/// currently open run, if any.
pub struct AtomState {
    pub atoms: Seq<Range>,
    pub open_start: Option<usize>,
}

/// One step of the atom scan at position `p`.
pub open spec fn atoms_step(st: AtomState, text: Seq<u8>, ubs: Seq<Range>, p: usize) -> AtomState {
    if glue_at(text, ubs, p as int) {
        if st.open_start is None {
            AtomState { open_start: Some(p), ..st }
        } else {
            st
        }
    } else {
        match st.open_start {
            Some(s) => AtomState {
                atoms: st.atoms.push(Range { start: s, end: p }),
                open_start: None,
            },
            None => st,
        }
    }
}

/// The atom scan state after positions `[a, p)`.
pub open spec fn atoms_fold(text: Seq<u8>, ubs: Seq<Range>, a: usize, p: int) -> AtomState
    decreases p - a,
{
    if p <= a {
        AtomState { atoms: Seq::empty(), open_start: None }
    } else {
        atoms_step(atoms_fold(text, ubs, a, p - 1), text, ubs, (p - 1) as usize)
    }
}

/// The atomic wrap tokens of `text[a..b]`: maximal runs of glue positions.
pub open spec fn atoms_spec(text: Seq<u8>, ubs: Seq<Range>, a: usize, b: usize) -> Seq<Range> {
    let st = atoms_fold(text, ubs, a, b as int);
    match st.open_start {
        Some(s) => st.atoms.push(Range { start: s, end: b }),
        None => st.atoms,
    }
}

/// Everything the atom scan guarantees about its state after `[a, p)`.
proof fn lemma_atoms_fold_inv(text: Seq<u8>, ubs: Seq<Range>, a: usize, p: int)
    requires
        a <= p <= usize::MAX,
    ensures
        ({
            let st = atoms_fold(text, ubs, a, p);
            &&& (st.open_start matches Some(s) ==> a <= s < p && (forall|q: int|
                s <= q < p ==> glue_at(text, ubs, q)))
            &&& (st.open_start is None && p > a ==> !glue_at(text, ubs, p - 1))
            &&& forall|k: int|
                0 <= k < st.atoms.len() ==> a <= (#[trigger] st.atoms[k]).start
                    < st.atoms[k].end <= p
            &&& forall|k: int, q: int|
                #![trigger st.atoms[k], text[q]]
                0 <= k < st.atoms.len() && st.atoms[k].start <= q < st.atoms[k].end
                    ==> glue_at(text, ubs, q)
            &&& forall|k: int|
                0 <= k < st.atoms.len() ==> !glue_at(text, ubs, (#[trigger] st.atoms[k]).end as int)
            &&& forall|k: int| 0 <= k < st.atoms.len() - 1 ==> (#[trigger] st.atoms[k]).end
                < st.atoms[k + 1].start
            &&& (st.open_start matches Some(s) ==> forall|k: int|
                0 <= k < st.atoms.len() ==> (#[trigger] st.atoms[k]).end < s)
            &&& forall|q: int|
                a <= q < p && glue_at(text, ubs, q) ==> (match st.open_start {
                    Some(s) => s <= q,
                    None => false,
                } || exists|k: int|
                    0 <= k < st.atoms.len() && (#[trigger] st.atoms[k]).start <= q
                        < st.atoms[k].end)
        }),
    decreases p - a,
{
    if p > a {
        lemma_atoms_fold_inv(text, ubs, a, p - 1);
        let prev = atoms_fold(text, ubs, a, p - 1);
        let st = atoms_fold(text, ubs, a, p);
        if !glue_at(text, ubs, p - 1) {
            match prev.open_start {
                Some(s) => {
                    assert(forall|k: int|
                        0 <= k < prev.atoms.len() ==> st.atoms[k] == #[trigger] prev.atoms[k]);
                    assert(st.atoms[st.atoms.len() - 1] == Range {
                        start: s,
                        end: (p - 1) as usize,
                    });
                },
                None => {},
            }
        }
    }
}

/// The atom decomposition of `[a, b)`: ordered, maximal, within bounds,
/// glue inside, and covering every glue position.
pub proof fn lemma_atoms_wf(text: Seq<u8>, ubs: Seq<Range>, a: usize, b: usize)
    requires
        a <= b,
    ensures
        ({
            let rs = atoms_spec(text, ubs, a, b);
            &&& forall|k: int|
                0 <= k < rs.len() ==> a <= (#[trigger] rs[k]).start < rs[k].end <= b
            &&& forall|k: int, q: int|
                #![trigger rs[k], text[q]]
                0 <= k < rs.len() && rs[k].start <= q < rs[k].end ==> glue_at(text, ubs, q)
            &&& forall|k: int|
                0 <= k < rs.len() ==> ((#[trigger] rs[k]).end < b ==> !glue_at(
                    text,
                    ubs,
                    rs[k].end as int,
                ))
            &&& forall|k: int| 0 <= k < rs.len() - 1 ==> (#[trigger] rs[k]).end < rs[k
                + 1].start
            &&& forall|q: int|
                a <= q < b && glue_at(text, ubs, q) ==> exists|k: int|
                    0 <= k < rs.len() && (#[trigger] rs[k]).start <= q < rs[k].end
        }),
{
    lemma_atoms_fold_inv(text, ubs, a, b as int);
    let st = atoms_fold(text, ubs, a, b as int);
    let rs = atoms_spec(text, ubs, a, b);
    match st.open_start {
        Some(s) => {
            assert(forall|k: int| 0 <= k < st.atoms.len() ==> rs[k] == #[trigger] st.atoms[k]);
            assert(rs[rs.len() - 1] == Range { start: s, end: b });
        },
        None => {},
    }
}

/// An unbreakable range that lies inside `[a, b)` is contained in exactly
/// one atom: wrapping never splits it.
pub proof fn lemma_ub_in_one_atom(text: Seq<u8>, ubs: Seq<Range>, a: usize, b: usize, ui: int)
    requires
        a <= b <= text.len(),
        0 <= ui < ubs.len(),
        a <= ubs[ui].start < ubs[ui].end,
        ubs[ui].end <= b,
    ensures
        exists|k: int|
            0 <= k < atoms_spec(text, ubs, a, b).len() && (#[trigger] atoms_spec(
                text,
                ubs,
                a,
                b,
            )[k]).start <= ubs[ui].start && ubs[ui].end <= atoms_spec(text, ubs, a, b)[k].end,
{
    lemma_atoms_wf(text, ubs, a, b);
    let rs = atoms_spec(text, ubs, a, b);
    let u = ubs[ui];
    assert(forall|q: int| u.start <= q < u.end ==> inside_ub(ubs, q));
    assert(glue_at(text, ubs, u.start as int));
    let k = choose|k: int| 0 <= k < rs.len() && (#[trigger] rs[k]).start <= u.start < rs[k].end;
    if rs[k].end < u.end {
        assert(u.start <= rs[k].end < u.end);
        assert(glue_at(text, ubs, rs[k].end as int));
        assert(rs[k].end < b);
        assert(false);
    }
    assert(rs[k].start <= u.start && u.end <= rs[k].end);
}

/// Compute the atomic wrap tokens of `text[a..b]`.
fn atoms(text: &Vec<u8>, ubs: &Vec<Range>, a: usize, b: usize) -> (r: Vec<Range>)
    requires
        a <= b <= text@.len(),
    ensures
        r@ == atoms_spec(text@, ubs@, a, b),
{
    let mut out: Vec<Range> = Vec::new();
    let mut open_start: Option<usize> = None;
    let mut p: usize = a;
    while p < b
        invariant
            a <= p <= b <= text@.len(),
            atoms_fold(text@, ubs@, a, p as int) == (AtomState { atoms: out@, open_start }),
        decreases b - p,
    {
        proof {
            assert(atoms_fold(text@, ubs@, a, p as int + 1) == atoms_step(
                atoms_fold(text@, ubs@, a, p as int),
                text@,
                ubs@,
                p,
            ));
        }
        let blank: bool = text[p] == 32 || text[p] == 9 || text[p] == 10 || text[p] == 11
            || text[p] == 12 || text[p] == 13;
        let glue: bool = !blank || is_inside_ub(ubs, p);
        proof {
            assert(glue == glue_at(text@, ubs@, p as int));
        }
        if glue {
            if open_start.is_none() {
                open_start = Some(p);
            }
        } else {
            match open_start {
                Some(s) => {
                    out.push(Range { start: s, end: p });
                    open_start = None;
                },
                None => {},
            }
        }
        p = p + 1;
    }
    match open_start {
        Some(s) => {
            out.push(Range { start: s, end: b });
        },
        None => {},
    }
    out
}

/// Soft characters inside an emitted token become plain spaces; everything
/// else is copied as is.
pub open spec fn unsoft(b: u8) -> u8 {
    if is_blank_byte(b) {
        32u8
    } else {
        b
    }
}

/// The bytes an atom contributes to the output.
pub open spec fn atom_emit(text: Seq<u8>, r: Range) -> Seq<u8> {
    text.subrange(r.start as int, r.end as int).map_values(|b: u8| unsoft(b))
}

/// The bytes of one output line, atoms joined by single spaces (without the
/// leading indent).
pub open spec fn line_bytes(text: Seq<u8>, line: Seq<Range>) -> Seq<u8>
    decreases line.len(),
{
    if line.len() == 0 {
        Seq::empty()
    } else if line.len() == 1 {
        atom_emit(text, line[0])
    } else {
        line_bytes(text, line.drop_last()) + seq![32u8] + atom_emit(text, line.last())
    }
}

/// The bytes of one rewrapped block: each line indented by one space, lines
/// joined by single newlines.
pub open spec fn block_bytes(text: Seq<u8>, lines: Seq<Seq<Range>>) -> Seq<u8>
    decreases lines.len(),
{
    if lines.len() == 0 {
        Seq::empty()
    } else if lines.len() == 1 {
        seq![32u8] + line_bytes(text, lines[0])
    } else {
        block_bytes(text, lines.drop_last()) + seq![10u8] + seq![32u8] + line_bytes(
            text,
            lines.last(),
        )
    }
}

/// The rendered length of a line, the one-space indent included.
pub open spec fn line_render_len(line: Seq<Range>) -> int
    decreases line.len(),
{
    if line.len() == 0 {
        0
    } else if line.len() == 1 {
        1 + (line[0].end - line[0].start)
    } else {
        line_render_len(line.drop_last()) + 1 + (line.last().end - line.last().start)
    }
}

/// All atoms of all lines, in order.
pub open spec fn lines_atoms(lines: Seq<Seq<Range>>) -> Seq<Range>
    decreases lines.len(),
{
    if lines.len() == 0 {
        Seq::empty()
    } else {
        lines_atoms(lines.drop_last()) + lines.last()
    }
}

/// Running state of the greedy fill: closed lines, the open line, and the
/// open line's rendered length.
pub struct FillState {
    pub lines: Seq<Seq<Range>>,
    pub cur: Seq<Range>,
    pub cur_len: int,
}

/// Place one atom: start the first line, extend the open line while the
/// joined length stays within the width, else close the line and start a
/// new one. An atom wider than the width still gets a line of its own, so
/// the fill always makes progress.
pub open spec fn fill_step(st: FillState, atom: Range, width: int) -> FillState {
    let alen = atom.end - atom.start;
    if st.cur.len() == 0 {
        FillState { lines: st.lines, cur: seq![atom], cur_len: 1 + alen }
    } else if st.cur_len + 1 + alen <= width {
        FillState { lines: st.lines, cur: st.cur.push(atom), cur_len: st.cur_len + 1 + alen }
    } else {
        FillState { lines: st.lines.push(st.cur), cur: seq![atom], cur_len: 1 + alen }
    }
}

/// The fill state after the first `n` atoms.
pub open spec fn fill_fold(atoms: Seq<Range>, width: int, n: int) -> FillState
    decreases n,
{
    if n <= 0 {
        FillState { lines: Seq::empty(), cur: Seq::empty(), cur_len: 0 }
    } else {
        fill_step(fill_fold(atoms, width, n - 1), atoms[n - 1], width)
    }
}

/// The greedy line fill of an atom list.
pub open spec fn fill_spec(atoms: Seq<Range>, width: int) -> Seq<Seq<Range>> {
    let st = fill_fold(atoms, width, atoms.len() as int);
    if st.cur.len() > 0 {
        st.lines.push(st.cur)
    } else {
        st.lines
    }
}

proof fn lemma_fill_fold_inv(atoms: Seq<Range>, width: int, n: int)
    requires
        0 <= n <= atoms.len(),
        forall|k: int| 0 <= k < atoms.len() ==> (#[trigger] atoms[k]).wf(),
    ensures
        ({
            let st = fill_fold(atoms, width, n);
            &&& st.cur_len == line_render_len(st.cur)
            &&& st.cur.len() > 0 ==> (st.cur_len <= width || st.cur.len() == 1)
            &&& forall|k: int| 0 <= k < st.lines.len() ==> (#[trigger] st.lines[k]).len() > 0
            &&& forall|k: int|
                0 <= k < st.lines.len() ==> (line_render_len(#[trigger] st.lines[k]) <= width
                    || st.lines[k].len() == 1)
            &&& lines_atoms(st.lines) + st.cur =~= atoms.take(n)
        }),
    decreases n,
{
    if n > 0 {
        lemma_fill_fold_inv(atoms, width, n - 1);
        let prev = fill_fold(atoms, width, n - 1);
        let st = fill_fold(atoms, width, n);
        let atom = atoms[n - 1];
        assert(atoms.take(n) =~= atoms.take(n - 1).push(atom));
        if prev.cur.len() == 0 {
            assert(st.cur =~= seq![atom]);
            assert(line_render_len(st.cur) == 1 + (atom.end - atom.start));
        } else if prev.cur_len + 1 + (atom.end - atom.start) <= width {
            assert(st.cur.drop_last() =~= prev.cur);
            assert(line_render_len(st.cur) == line_render_len(prev.cur) + 1 + (atom.end
                - atom.start));
        } else {
            assert(st.lines.drop_last() =~= prev.lines);
            assert(lines_atoms(st.lines) =~= lines_atoms(prev.lines) + prev.cur);
            assert(forall|k: int|
                0 <= k < prev.lines.len() ==> st.lines[k] == #[trigger] prev.lines[k]);
            assert(st.lines[st.lines.len() - 1] == prev.cur);
        }
    }
}

/// What the greedy fill guarantees: lines are non-empty, each rendered line
/// stays within the width unless it holds a single (over-wide) atom, and
/// the lines partition the atom list in order.
pub proof fn lemma_fill_wf(atoms: Seq<Range>, width: int)
    requires
        forall|k: int| 0 <= k < atoms.len() ==> (#[trigger] atoms[k]).wf(),
    ensures
        ({
            let lines = fill_spec(atoms, width);
            &&& forall|k: int| 0 <= k < lines.len() ==> (#[trigger] lines[k]).len() > 0
            &&& forall|k: int|
                0 <= k < lines.len() ==> (line_render_len(#[trigger] lines[k]) <= width
                    || lines[k].len() == 1)
            &&& lines_atoms(lines) =~= atoms
        }),
{
    lemma_fill_fold_inv(atoms, width, atoms.len() as int);
    let st = fill_fold(atoms, width, atoms.len() as int);
    let lines = fill_spec(atoms, width);
    assert(atoms.take(atoms.len() as int) =~= atoms);
    if st.cur.len() > 0 {
        assert(lines.drop_last() =~= st.lines);
        assert(lines_atoms(lines) =~= lines_atoms(st.lines) + st.cur);
        assert(forall|k: int|
            0 <= k < st.lines.len() ==> lines[k] == #[trigger] st.lines[k]);
        assert(lines[lines.len() - 1] == st.cur);
    } else {
        assert(lines_atoms(lines) + st.cur =~= lines_atoms(lines));
    }
}

proof fn lemma_lines_atoms_mem(lines: Seq<Seq<Range>>, k: int, t: int)
    requires
        0 <= k < lines.len(),
        0 <= t < lines[k].len(),
    ensures
        lines_atoms(lines).contains(lines[k][t]),
    decreases lines.len(),
{
    if k == lines.len() - 1 {
        assert(lines_atoms(lines) == lines_atoms(lines.drop_last()) + lines.last());
        assert((lines_atoms(lines.drop_last()) + lines.last())[lines_atoms(
            lines.drop_last(),
        ).len() + t] == lines.last()[t]);
    } else {
        lemma_lines_atoms_mem(lines.drop_last(), k, t);
        let w = choose|w: int|
            0 <= w < lines_atoms(lines.drop_last()).len() && lines_atoms(lines.drop_last())[w]
                == lines.drop_last()[k][t];
        assert(lines_atoms(lines)[w] == lines[k][t]);
    }
}

proof fn lemma_lines_atoms_mem_rev(lines: Seq<Seq<Range>>, idx: int)
    requires
        0 <= idx < lines_atoms(lines).len(),
    ensures
        exists|k: int, t: int|
            #![auto]
            0 <= k < lines.len() && 0 <= t < lines[k].len() && lines[k][t] == lines_atoms(
                lines,
            )[idx],
    decreases lines.len(),
{
    assert(lines.len() > 0);
    let pre = lines_atoms(lines.drop_last());
    if idx < pre.len() {
        lemma_lines_atoms_mem_rev(lines.drop_last(), idx);
        let (k, t) = choose|k: int, t: int|
            #![auto]
            0 <= k < lines.drop_last().len() && 0 <= t < lines.drop_last()[k].len()
                && lines.drop_last()[k][t] == pre[idx];
        assert(lines[k][t] == lines_atoms(lines)[idx]);
    } else {
        let t = idx - pre.len();
        assert(lines[lines.len() - 1][t] == lines_atoms(lines)[idx]);
    }
}

proof fn lemma_atoms_sorted(rs: Seq<Range>, k1: int, k2: int)
    requires
        forall|k: int| 0 <= k < rs.len() ==> (#[trigger] rs[k]).start < rs[k].end,
        forall|k: int| 0 <= k < rs.len() - 1 ==> (#[trigger] rs[k]).end < rs[k + 1].start,
        0 <= k1 < k2 < rs.len(),
    ensures
        rs[k1].end < rs[k2].start,
    decreases k2 - k1,
{
    if k1 + 1 < k2 {
        lemma_atoms_sorted(rs, k1, k2 - 1);
        assert(rs[k2 - 1].end < rs[(k2 - 1) + 1].start);
    } else {
        assert(rs[k1].end < rs[k1 + 1].start);
    }
}

/// The unbreakable invariant of the wrap: an unbreakable range inside the
/// wrapped region sits whole on exactly one output line; no line boundary
/// falls strictly inside it, since every line is made of whole atoms and
/// the range is contained in a single atom.
pub proof fn lemma_unbreakable_on_one_line(
    text: Seq<u8>,
    ubs: Seq<Range>,
    a: usize,
    b: usize,
    width: int,
    ui: int,
)
    requires
        a <= b <= text.len(),
        0 <= ui < ubs.len(),
        a <= ubs[ui].start < ubs[ui].end,
        ubs[ui].end <= b,
    ensures
        ({
            let lines = fill_spec(atoms_spec(text, ubs, a, b), width);
            let u = ubs[ui];
            &&& forall|k: int, t: int|
                #![trigger lines[k][t]]
                0 <= k < lines.len() && 0 <= t < lines[k].len() ==> (lines[k][t].end <= u.start
                    || u.end <= lines[k][t].start || (lines[k][t].start <= u.start && u.end
                    <= lines[k][t].end))
            &&& exists|k: int, t: int|
                #![auto]
                0 <= k < lines.len() && 0 <= t < lines[k].len() && lines[k][t].start <= u.start
                    && u.end <= lines[k][t].end
        }),
{
    let rs = atoms_spec(text, ubs, a, b);
    let lines = fill_spec(rs, width);
    let u = ubs[ui];
    lemma_atoms_wf(text, ubs, a, b);
    lemma_ub_in_one_atom(text, ubs, a, b, ui);
    lemma_fill_wf(rs, width);
    let j = choose|j: int|
        0 <= j < rs.len() && (#[trigger] rs[j]).start <= u.start && u.end <= rs[j].end;
    assert(lines_atoms(lines) =~= rs);
    lemma_lines_atoms_mem_rev(lines, j);
    assert forall|k: int, t: int|
        #![trigger lines[k][t]]
        0 <= k < lines.len() && 0 <= t < lines[k].len() implies (lines[k][t].end <= u.start
        || u.end <= lines[k][t].start || (lines[k][t].start <= u.start && u.end
        <= lines[k][t].end)) by {
        lemma_lines_atoms_mem(lines, k, t);
        let idx = choose|idx: int|
            0 <= idx < lines_atoms(lines).len() && lines_atoms(lines)[idx] == lines[k][t];
        assert(rs[idx] == lines[k][t]);
        if idx != j {
            if idx < j {
                lemma_atoms_sorted(rs, idx, j);
            } else {
                lemma_atoms_sorted(rs, j, idx);
            }
        }
    };
}

proof fn lemma_line_bytes_props(text: Seq<u8>, line: Seq<Range>)
    requires
        forall|t: int|
            0 <= t < line.len() ==> (#[trigger] line[t]).wf() && line[t].end <= text.len(),
        line.len() > 0,
    ensures
        line_bytes(text, line).len() + 1 == line_render_len(line),
        forall|p: int| 0 <= p < line_bytes(text, line).len() ==> line_bytes(text, line)[p]
            != 10u8,
    decreases line.len(),
{
    if line.len() == 1 {
        assert(line_bytes(text, line) == atom_emit(text, line[0]));
        assert(atom_emit(text, line[0]).len() == line[0].end - line[0].start);
        assert(forall|p: int|
            0 <= p < atom_emit(text, line[0]).len() ==> atom_emit(text, line[0])[p] != 10u8);
    } else {
        assert(forall|t: int|
            0 <= t < line.drop_last().len() ==> (#[trigger] line.drop_last()[t]) == line[t]);
        lemma_line_bytes_props(text, line.drop_last());
        assert(line.last() == line[line.len() - 1]);
        assert(atom_emit(text, line.last()).len() == line.last().end - line.last().start);
        assert(forall|p: int|
            0 <= p < atom_emit(text, line.last()).len() ==> atom_emit(text, line.last())[p]
                != 10u8);
    }
}

/// Width bound on the actual output bytes: every rendered line of a
/// wrapped block (the one-space indent included) stays within the width,
/// unless the line holds a single over-wide atom which gets a line of its
/// own; and no newline byte occurs inside a rendered line, so the newlines
/// of a block render are exactly the line joins.
pub proof fn lemma_rendered_lines_within_width(text: Seq<u8>, atoms: Seq<Range>, width: int)
    requires
        forall|k: int|
            0 <= k < atoms.len() ==> (#[trigger] atoms[k]).wf() && atoms[k].end <= text.len(),
    ensures
        forall|k: int|
            0 <= k < fill_spec(atoms, width).len() ==> (1 + line_bytes(
                text,
                #[trigger] fill_spec(atoms, width)[k],
            ).len() <= width || fill_spec(atoms, width)[k].len() == 1),
        forall|k: int, p: int|
            #![trigger line_bytes(text, fill_spec(atoms, width)[k])[p]]
            0 <= k < fill_spec(atoms, width).len() && 0 <= p < line_bytes(
                text,
                fill_spec(atoms, width)[k],
            ).len() ==> line_bytes(text, fill_spec(atoms, width)[k])[p] != 10u8,
{
    lemma_fill_wf(atoms, width);
    let lines = fill_spec(atoms, width);
    assert forall|k: int| 0 <= k < lines.len() implies (1 + line_bytes(
        text,
        #[trigger] lines[k],
    ).len() <= width || lines[k].len() == 1) by {
        lemma_line_atoms_bounded(text, atoms, width, k);
        lemma_line_bytes_props(text, lines[k]);
        assert(line_render_len(lines[k]) <= width || lines[k].len() == 1);
    };
    assert forall|k: int, p: int|
        #![trigger line_bytes(text, fill_spec(atoms, width)[k])[p]]
        0 <= k < lines.len() && 0 <= p < line_bytes(text, lines[k]).len() implies line_bytes(
        text,
        lines[k],
    )[p] != 10u8 by {
        lemma_line_atoms_bounded(text, atoms, width, k);
        lemma_line_bytes_props(text, lines[k]);
    };
}

proof fn lemma_line_atoms_bounded(text: Seq<u8>, atoms: Seq<Range>, width: int, k: int)
    requires
        forall|t: int|
            0 <= t < atoms.len() ==> (#[trigger] atoms[t]).wf() && atoms[t].end <= text.len(),
        0 <= k < fill_spec(atoms, width).len(),
    ensures
        forall|t: int|
            0 <= t < fill_spec(atoms, width)[k].len() ==> (#[trigger] fill_spec(
                atoms,
                width,
            )[k][t]).wf() && fill_spec(atoms, width)[k][t].end <= text.len(),
        fill_spec(atoms, width)[k].len() > 0,
{
    lemma_fill_wf(atoms, width);
    let lines = fill_spec(atoms, width);
    assert forall|t: int| 0 <= t < lines[k].len() implies (#[trigger] lines[k][t]).wf()
        && lines[k][t].end <= text.len() by {
        lemma_lines_atoms_mem(lines, k, t);
        let idx = choose|idx: int|
            0 <= idx < lines_atoms(lines).len() && lines_atoms(lines)[idx] == lines[k][t];
        assert(atoms[idx] == lines[k][t]);
    };
}

/// Running state of the sub-paragraph split: closed blocks, the start of
/// the open block, and whether the next position is the second byte of an
/// already-consumed blank-line separator.
pub struct BlockState {
    pub blocks: Seq<Range>,
    pub cur_start: usize,
    pub skip: bool,
}

/// One step of the sub-paragraph split at position `p`: a double newline
/// outside every unbreakable range separates blocks.
pub open spec fn blocks_step(
    st: BlockState,
    text: Seq<u8>,
    ubs: Seq<Range>,
    b: usize,
    p: usize,
) -> BlockState {
    if st.skip {
        BlockState { skip: false, ..st }
    } else if p + 1 < b && text[p as int] == 10u8 && text[p as int + 1] == 10u8 && !inside_ub(
        ubs,
        p as int,
    ) {
        BlockState {
            blocks: st.blocks.push(Range { start: st.cur_start, end: p }),
            cur_start: (p + 2) as usize,
            skip: true,
        }
    } else {
        st
    }
}

/// The split state after positions `[a, p)`.
pub open spec fn blocks_fold(text: Seq<u8>, ubs: Seq<Range>, a: usize, b: usize, p: int) -> BlockState
    decreases p - a,
{
    if p <= a {
        BlockState { blocks: Seq::empty(), cur_start: a, skip: false }
    } else {
        blocks_step(blocks_fold(text, ubs, a, b, p - 1), text, ubs, b, (p - 1) as usize)
    }
}

/// The sub-paragraphs of `[a, b)`: split at blank lines, the trailing block
/// always included (possibly empty).
pub open spec fn blocks_spec(text: Seq<u8>, ubs: Seq<Range>, a: usize, b: usize) -> Seq<Range> {
    let st = blocks_fold(text, ubs, a, b, b as int);
    st.blocks.push(Range { start: st.cur_start, end: b })
}

proof fn lemma_blocks_fold_inv(text: Seq<u8>, ubs: Seq<Range>, a: usize, b: usize, p: int)
    requires
        a <= p <= b <= usize::MAX,
    ensures
        ({
            let st = blocks_fold(text, ubs, a, b, p);
            &&& (st.skip ==> p < b && st.cur_start == p + 1)
            &&& (!st.skip ==> a <= st.cur_start <= p)
            &&& (p == a ==> st.cur_start == a)
            &&& st.cur_start >= a
            &&& forall|k: int|
                0 <= k < st.blocks.len() ==> a <= (#[trigger] st.blocks[k]).start
                    <= st.blocks[k].end <= b
        }),
    decreases p - a,
{
    if p > a {
        lemma_blocks_fold_inv(text, ubs, a, b, p - 1);
    }
}

/// Compute the sub-paragraph blocks of `text[a..b]`.
fn split_blocks(text: &Vec<u8>, ubs: &Vec<Range>, a: usize, b: usize) -> (r: Vec<Range>)
    requires
        a <= b <= text@.len(),
    ensures
        r@ == blocks_spec(text@, ubs@, a, b),
        forall|k: int| 0 <= k < r@.len() ==> a <= (#[trigger] r@[k]).start <= r@[k].end <= b,
{
    let mut blocks: Vec<Range> = Vec::new();
    let mut cur_start: usize = a;
    let mut skip: bool = false;
    let mut p: usize = a;
    while p < b
        invariant
            a <= p <= b <= text@.len(),
            blocks_fold(text@, ubs@, a, b, p as int) == (BlockState {
                blocks: blocks@,
                cur_start,
                skip,
            }),
        decreases b - p,
    {
        proof {
            assert(blocks_fold(text@, ubs@, a, b, p as int + 1) == blocks_step(
                blocks_fold(text@, ubs@, a, b, p as int),
                text@,
                ubs@,
                b,
                p,
            ));
        }
        if skip {
            skip = false;
        } else if p + 1 < b && text[p] == 10 && text[p + 1] == 10 && !is_inside_ub(ubs, p) {
            blocks.push(Range { start: cur_start, end: p });
            cur_start = p + 2;
            skip = true;
        }
        p = p + 1;
    }
    proof {
        lemma_blocks_fold_inv(text@, ubs@, a, b, b as int);
    }
    blocks.push(Range { start: cur_start, end: b });
    blocks
}

/// Append an atom's bytes, soft characters emitted as spaces.
fn append_emit(dst: &mut Vec<u8>, src: &Vec<u8>, a: usize, b: usize)
    requires
        a <= b <= src@.len(),
    ensures
        final(dst)@ == old(dst)@ + atom_emit(src@, Range { start: a, end: b }),
{
    let mut j: usize = a;
    proof {
        assert(dst@ =~= dst@ + src@.subrange(a as int, a as int).map_values(
            |x: u8| unsoft(x),
        ));
    }
    while j < b
        invariant
            a <= j <= b <= src@.len(),
            dst@ == old(dst)@ + src@.subrange(a as int, j as int).map_values(
                |x: u8| unsoft(x),
            ),
        decreases b - j,
    {
        let byte: u8 = src[j];
        let blank: bool = byte == 32 || byte == 9 || byte == 10 || byte == 11 || byte == 12
            || byte == 13;
        if blank {
            dst.push(32);
        } else {
            dst.push(byte);
        }
        proof {
            assert(src@.subrange(a as int, j as int + 1).map_values(|x: u8| unsoft(x))
                =~= src@.subrange(a as int, j as int).map_values(|x: u8| unsoft(x)).push(
                unsoft(src@[j as int]),
            ));
        }
        j = j + 1;
    }
}

/// One block, rendered: the atoms greedily filled into lines of at most
/// `width` rendered bytes (single over-wide atoms excepted), each line
/// indented by one space, lines joined by newlines.
fn wrap_block(text: &Vec<u8>, atoms_v: &Vec<Range>, width: usize) -> (r: Vec<u8>)
    requires
        forall|k: int|
            0 <= k < atoms_v@.len() ==> (#[trigger] atoms_v@[k]).start <= atoms_v@[k].end
                <= text@.len(),
    ensures
        r@ == block_bytes(text@, fill_spec(atoms_v@, width as int)),
{
    let mut out: Vec<u8> = Vec::new();
    let n: usize = atoms_v.len();
    let mut i: usize = 0;
    let mut cur_len: usize = 0;
    while i < n
        invariant
            i <= n,
            n == atoms_v@.len(),
            forall|k: int|
                0 <= k < atoms_v@.len() ==> (#[trigger] atoms_v@[k]).start <= atoms_v@[k].end
                    <= text@.len(),
            ({
                let st = fill_fold(atoms_v@, width as int, i as int);
                &&& (i == 0 ==> out@.len() == 0 && st.cur.len() == 0 && st.lines.len() == 0)
                &&& (i > 0 ==> st.cur.len() > 0 && out@ == block_bytes(
                    text@,
                    st.lines.push(st.cur),
                ))
                &&& (st.cur_len <= usize::MAX ==> cur_len as int == st.cur_len)
                &&& (st.cur_len > usize::MAX ==> cur_len == usize::MAX)
            }),
        decreases n - i,
    {
        let ghost st = fill_fold(atoms_v@, width as int, i as int);
        proof {
            assert(fill_fold(atoms_v@, width as int, i as int + 1) == fill_step(
                st,
                atoms_v@[i as int],
                width as int,
            ));
        }
        let atom: Range = atoms_v[i];
        let alen: usize = atom.end - atom.start;
        let ghost nst = fill_fold(atoms_v@, width as int, i as int + 1);
        if i == 0 {
            out.push(32);
            append_emit(&mut out, text, atom.start, atom.end);
            cur_len = if alen < usize::MAX {
                1 + alen
            } else {
                usize::MAX
            };
            proof {
                assert(nst.cur =~= seq![atom]);
                assert(nst.lines =~= st.lines);
                assert(block_bytes(text@, nst.lines.push(nst.cur)) =~= seq![32u8] + atom_emit(
                    text@,
                    atom,
                ));
                assert(out@ =~= seq![32u8] + atom_emit(text@, atom));
            }
        } else {
            let fits: bool = cur_len < width && width - cur_len >= 1 && width - cur_len - 1
                >= alen;
            proof {
                assert(fits == (st.cur_len + 1 + alen <= width));
            }
            if fits {
                out.push(32);
                append_emit(&mut out, text, atom.start, atom.end);
                cur_len = cur_len + 1 + alen;
                proof {
                    assert(nst.cur =~= st.cur.push(atom));
                    assert(nst.lines =~= st.lines);
                    assert(nst.cur.drop_last() =~= st.cur);
                    assert(line_bytes(text@, nst.cur) =~= line_bytes(text@, st.cur)
                        + seq![32u8] + atom_emit(text@, atom));
                    assert(nst.lines.push(nst.cur).drop_last() =~= st.lines);
                    assert(st.lines.push(st.cur).drop_last() =~= st.lines);
                    if st.lines.len() == 0 {
                        assert(block_bytes(text@, nst.lines.push(nst.cur)) =~= seq![32u8]
                            + line_bytes(text@, nst.cur));
                        assert(block_bytes(text@, st.lines.push(st.cur)) =~= seq![32u8]
                            + line_bytes(text@, st.cur));
                    }
                    assert(out@ =~= block_bytes(text@, nst.lines.push(nst.cur)));
                }
            } else {
                out.push(10);
                out.push(32);
                append_emit(&mut out, text, atom.start, atom.end);
                cur_len = if alen < usize::MAX {
                    1 + alen
                } else {
                    usize::MAX
                };
                proof {
                    assert(nst.cur =~= seq![atom]);
                    assert(nst.lines =~= st.lines.push(st.cur));
                    assert(nst.lines.push(nst.cur).drop_last() =~= nst.lines);
                    assert(block_bytes(text@, nst.lines.push(nst.cur)) =~= block_bytes(
                        text@,
                        nst.lines,
                    ) + seq![10u8] + seq![32u8] + line_bytes(text@, nst.cur));
                    assert(line_bytes(text@, nst.cur) =~= atom_emit(text@, atom));
                    assert(out@ =~= block_bytes(text@, nst.lines.push(nst.cur)));
                }
            }
        }
        i = i + 1;
    }
    proof {
        let st = fill_fold(atoms_v@, width as int, n as int);
        if n == 0 {
            assert(fill_spec(atoms_v@, width as int) =~= Seq::<Seq<Range>>::empty());
            assert(block_bytes(text@, fill_spec(atoms_v@, width as int)) =~= Seq::<u8>::empty());
        } else {
            assert(fill_spec(atoms_v@, width as int) == st.lines.push(st.cur));
        }
    }
    out
}

/// What one kept block renders to.
pub open spec fn block_render(text: Seq<u8>, ubs: Seq<Range>, width: int, blk: Range) -> Seq<u8> {
    block_bytes(text, fill_spec(atoms_spec(text, ubs, blk.start, blk.end), width))
}

/// The rendered output over the first `n` blocks, with a flag telling
/// whether anything was emitted yet: blocks without atoms are dropped, kept
/// blocks are joined by one blank line.
pub open spec fn render_fold(
    text: Seq<u8>,
    ubs: Seq<Range>,
    width: int,
    brs: Seq<Range>,
    n: int,
) -> (Seq<u8>, bool)
    decreases n,
{
    if n <= 0 {
        (Seq::empty(), false)
    } else {
        let prev = render_fold(text, ubs, width, brs, n - 1);
        let blk = brs[n - 1];
        if atoms_spec(text, ubs, blk.start, blk.end).len() > 0 {
            (
                prev.0 + (if prev.1 {
                    seq![10u8, 10u8]
                } else {
                    Seq::empty()
                }) + block_render(text, ubs, width, blk),
                true,
            )
        } else {
            prev
        }
    }
}

/// The full rewrap of one unit: sub-paragraphs split at blank lines, each
/// wrapped to the width, re-joined with a single blank line between them.
pub open spec fn rewrap_spec(text: Seq<u8>, ubs: Seq<Range>, unit: Range, width: int) -> Seq<
    u8,
> {
    let brs = blocks_spec(text, ubs, unit.start, unit.end);
    render_fold(text, ubs, width, brs, brs.len() as int).0
}

/// Rewrap one unit of a chunk's virtual text.
fn rewrap_unit(text: &Vec<u8>, ubs: &Vec<Range>, unit: Range, width: usize) -> (r: Vec<u8>)
    requires
        unit.start <= unit.end <= text@.len(),
    ensures
        r@ == rewrap_spec(text@, ubs@, unit, width as int),
{
    let brs: Vec<Range> = split_blocks(text, ubs, unit.start, unit.end);
    let mut out: Vec<u8> = Vec::new();
    let mut emitted: bool = false;
    let n: usize = brs.len();
    let mut i: usize = 0;
    while i < n
        invariant
            i <= n,
            n == brs@.len(),
            brs@ == blocks_spec(text@, ubs@, unit.start, unit.end),
            forall|k: int|
                0 <= k < brs@.len() ==> unit.start <= (#[trigger] brs@[k]).start <= brs@[k].end
                    <= unit.end,
            unit.start <= unit.end <= text@.len(),
            (out@, emitted) == render_fold(text@, ubs@, width as int, brs@, i as int),
        decreases n - i,
    {
        let blk: Range = brs[i];
        let av: Vec<Range> = atoms(text, ubs, blk.start, blk.end);
        proof {
            lemma_atoms_wf(text@, ubs@, blk.start, blk.end);
        }
        if av.len() > 0 {
            if emitted {
                out.push(10);
                out.push(10);
            }
            let mut bb: Vec<u8> = wrap_block(text, &av, width);
            let ghost mid = out@;
            out.append(&mut bb);
            proof {
                if emitted {
                    assert(out@ =~= render_fold(text@, ubs@, width as int, brs@, i as int).0
                        + seq![10u8, 10u8] + block_render(text@, ubs@, width as int, blk));
                } else {
                    assert(out@ =~= render_fold(text@, ubs@, width as int, brs@, i as int).0
                        + Seq::<u8>::empty() + block_render(text@, ubs@, width as int, blk));
                }
            }
            emitted = true;
        }
        i = i + 1;
    }
    out
}

/// A unit calls for a suggestion: it has at least one wrap token and its
/// rewrap differs from the original text.
pub open spec fn unit_emits(text: Seq<u8>, ubs: Seq<Range>, unit: Range, width: int) -> bool {
    &&& atoms_spec(text, ubs, unit.start, unit.end).len() > 0
    &&& rewrap_spec(text, ubs, unit, width) != text.subrange(unit.start as int, unit.end as int)
}

/// Reflow is a fixed point: a unit whose text already equals its own rewrap
/// at the same width produces no suggestion.
pub proof fn lemma_reflow_fixed_point(text: Seq<u8>, ubs: Seq<Range>, unit: Range, width: int)
    requires
        rewrap_spec(text, ubs, unit, width) == text.subrange(
            unit.start as int,
            unit.end as int,
        ),
    ensures
        !unit_emits(text, ubs, unit, width),
{
}

/// The note attached to every reflow suggestion.
pub open spec fn rewrapped_bytes() -> Seq<u8> {
    seq![82u8, 101u8, 119u8, 114u8, 97u8, 112u8, 112u8, 101u8, 100u8]
}

fn rewrapped_note() -> (r: Vec<u8>)
    ensures
        r@ == rewrapped_bytes(),
{
    let mut v: Vec<u8> = Vec::new();
    v.push(82);
    v.push(101);
    v.push(119);
    v.push(114);
    v.push(97);
    v.push(112);
    v.push(112);
    v.push(101);
    v.push(100);
    proof {
        assert(v@ =~= rewrapped_bytes());
    }
    v
}

/// Rewrap one unit of a chunk and emit at most one suggestion: none when
/// the unit has no wrap tokens or the rewrap reproduces the original text
/// exactly, one carrying the rewrapped replacement and the source span of
/// the unit otherwise.
pub fn reflow_inner(
    origin: &ContentOrigin,
    chunk: &CheckableChunk,
    range: Range,
    unbreakable_ranges: &Vec<Range>,
    max_line_length: usize,
) -> (r: Vec<Suggestion>)
    requires
        chunk.wf(),
        range.start <= range.end <= chunk.text@.len(),
    ensures
        r@.len() <= 1,
        (r@.len() == 1) <==> unit_emits(
            chunk.text@,
            unbreakable_ranges@,
            range,
            max_line_length as int,
        ),
        r@.len() == 1 ==> ({
            let s = r@[0];
            &&& s.detector == Detector::Reflow
            &&& s.range == range
            &&& crate::suggestion::same_origin(s.origin, *origin)
            &&& s.replacements@.len() == 1
            &&& s.replacements@[0]@ == rewrap_spec(
                chunk.text@,
                unbreakable_ranges@,
                range,
                max_line_length as int,
            )
            &&& (s.description matches Some(d) && d@ == rewrapped_bytes())
            &&& exists|i: int, j: int|
                #![auto]
                chunk.set.is_loc(range.start as int, i) && chunk.set.is_loc(
                    range.end as int,
                    j,
                ) && s.span.start == chunk.set.loc_at(i, range.start as int) && s.span.end
                    == chunk.set.loc_at(j, range.end as int)
        }),
{
    let text: &Vec<u8> = &chunk.text;
    let mut out: Vec<Suggestion> = Vec::new();
    let av: Vec<Range> = atoms(text, unbreakable_ranges, range.start, range.end);
    if av.len() == 0 {
        return out;
    }
    let rew: Vec<u8> = rewrap_unit(text, unbreakable_ranges, range, max_line_length);
    if eq_range(&rew, text, range.start, range.end) {
        return out;
    }
    proof {
        lemma_atoms_wf(text@, unbreakable_ranges@, range.start, range.end);
        assert(range.start < range.end);
        assert(chunk.set.total_len() == text@.len());
    }
    let length: usize = range.end - range.start;
    proof {
        assert(chunk.set.lits().len() > 0) by {
            if chunk.set.lits().len() == 0 {
                assert(chunk.set.total_len() == 0);
            }
        };
    }
    let spans: Vec<(usize, Span)> = match chunk.set.linear_coverage_to_spans(
        range.start,
        length,
    ) {
        Ok(spans) => spans,
        Err(_) => {
            // out of bounds cannot arise here: the unit lies within the
            // virtual text; the suggestion would simply be dropped
            proof {
                assert(false);
            }
            return out;
        },
    };
    proof {
        assert(spans@.len() > 0);
    }
    let first: (usize, Span) = spans[0];
    let last: (usize, Span) = spans[spans.len() - 1];
    let span: Span = Span { start: first.1.start, end: last.1.end };
    let mut replacements: Vec<Vec<u8>> = Vec::new();
    replacements.push(rew);
    let suggestion: Suggestion = Suggestion {
        detector: Detector::Reflow,
        range,
        span,
        origin: origin.duplicate(),
        replacements,
        description: Some(rewrapped_note()),
    };
    proof {
        let (gi, gj) = choose|i: int, j: int|
            #![trigger chunk.set.is_loc(range.start as int, i), chunk.set.is_loc(range.start as int + length as int, j)]
            chunk.set.is_loc(range.start as int, i) && chunk.set.is_loc(
                range.start as int + length as int,
                j,
            ) && chunk.set.spans_shape(
                range.start as int,
                range.start as int + length as int,
                i,
                j,
                spans@,
            );
        assert(chunk.set.is_loc(range.end as int, gj));
        assert(span.start == chunk.set.loc_at(gi, range.start as int)) by {
            assert(spans@[0].1.start.column as int == chunk.set.content_start_col(gi) + (
            range.start - chunk.set.vstart(gi)));
            assert(spans@[0].1.start.line == chunk.set.lits()[gi].span.start.line);
        };
        assert(span.end == chunk.set.loc_at(gj, range.end as int)) by {
            assert(spans@[spans@.len() - 1].1.end.column as int == chunk.set.content_start_col(
                gj,
            ) + (range.end - chunk.set.vstart(gj)));
            assert(spans@[spans@.len() - 1].1.end.line == chunk.set.lits()[
                gj
            ].span.start.line);
        };
    }
    out.push(suggestion);
    out
}

/// The markdown scan reports a paragraph without the indentation that
/// precedes it on its first line; the rewrap re-indents, so the unit is
/// first widened leftward over spaces and tabs to cover that indentation.
pub open spec fn widen_start(text: Seq<u8>, s: int) -> int
    decreases s,
{
    if s <= 0 || s > text.len() {
        s
    } else if text[s - 1] == 32u8 || text[s - 1] == 9u8 {
        widen_start(text, s - 1)
    } else {
        s
    }
}

/// A unit widened leftward over the indentation before it.
pub open spec fn widen_unit(text: Seq<u8>, unit: Range) -> Range {
    Range { start: widen_start(text, unit.start as int) as usize, end: unit.end }
}

fn widen(text: &Vec<u8>, unit: Range) -> (r: Range)
    requires
        unit.start <= unit.end <= text@.len(),
    ensures
        r == widen_unit(text@, unit),
        r.start <= unit.start,
        r.end == unit.end,
{
    let mut s: usize = unit.start;
    while s > 0 && (text[s - 1] == 32 || text[s - 1] == 9)
        invariant
            s <= unit.start <= text@.len(),
            widen_start(text@, unit.start as int) == widen_start(text@, s as int),
        decreases s,
    {
        s = s - 1;
    }
    proof {
        assert(widen_start(text@, s as int) == s as int);
    }
    Range { start: s, end: unit.end }
}

/// Number of suggestion-emitting units among the first `n`.
pub open spec fn emit_count(
    text: Seq<u8>,
    ubs: Seq<Range>,
    units: Seq<Range>,
    width: int,
    n: int,
) -> int
    decreases n,
{
    if n <= 0 {
        0
    } else {
        emit_count(text, ubs, units, width, n - 1) + (if unit_emits(text, ubs, units[n - 1], width) {
            1int
        } else {
            0int
        })
    }
}

proof fn lemma_emit_count_le(
    text: Seq<u8>,
    ubs: Seq<Range>,
    units: Seq<Range>,
    width: int,
    n1: int,
    n2: int,
)
    requires
        0 <= n1 <= n2,
    ensures
        emit_count(text, ubs, units, width, n1) <= emit_count(text, ubs, units, width, n2),
        emit_count(text, ubs, units, width, n2) <= emit_count(text, ubs, units, width, n1) + (n2
            - n1),
    decreases n2 - n1,
{
    if n1 < n2 {
        lemma_emit_count_le(text, ubs, units, width, n1, n2 - 1);
    }
}

proof fn lemma_emit_count_surjective(
    text: Seq<u8>,
    ubs: Seq<Range>,
    units: Seq<Range>,
    width: int,
    t: int,
    n: int,
)
    requires
        0 <= n,
        0 <= t < emit_count(text, ubs, units, width, n),
    ensures
        exists|u: int|
            0 <= u < n && unit_emits(text, ubs, #[trigger] units[u], width) && emit_count(
                text,
                ubs,
                units,
                width,
                u,
            ) == t,
    decreases n,
{
    if n > 0 {
        if unit_emits(text, ubs, units[n - 1], width) && t == emit_count(
            text,
            ubs,
            units,
            width,
            n - 1,
        ) {
            assert(unit_emits(text, ubs, #[trigger] units[n - 1], width) && emit_count(
                text,
                ubs,
                units,
                width,
                n - 1,
            ) == t);
        } else {
            lemma_emit_count_surjective(text, ubs, units, width, t, n - 1);
        }
    }
}

/// The units of a chunk, widened over their leading indentation.
pub open spec fn chunk_units(chunk: CheckableChunk) -> Seq<Range> {
    scan_result(md_events_of(chunk.text@)).0.map_values(
        |r: Range| widen_unit(chunk.text@, r),
    )
}

/// The suggestion is exactly what the reflow pipeline produces for unit
/// `u` of `chunk`, filed under `origin`: the detector tag, the unit as its
/// covered range, the single rewrapped replacement, the "Rewrapped" note,
/// and the source span resolved through the chunk's mapping.
pub open spec fn sugg_for_unit(
    s: Suggestion,
    origin: ContentOrigin,
    chunk: CheckableChunk,
    u: int,
    width: int,
) -> bool {
    let units = chunk_units(chunk);
    let ubs = scan_result(md_events_of(chunk.text@)).1;
    &&& s.detector == Detector::Reflow
    &&& s.range == units[u]
    &&& crate::suggestion::same_origin(s.origin, origin)
    &&& s.replacements@.len() == 1
    &&& s.replacements@[0]@ == rewrap_spec(chunk.text@, ubs, units[u], width)
    &&& (s.description matches Some(d) && d@ == rewrapped_bytes())
    &&& exists|i: int, j: int|
        #![auto]
        chunk.set.is_loc(units[u].start as int, i) && chunk.set.is_loc(units[u].end as int, j)
            && s.span.start == chunk.set.loc_at(i, units[u].start as int) && s.span.end
            == chunk.set.loc_at(j, units[u].end as int)
}

/// Unit `u` of chunk `dc` under origin entry `de` of the document exists
/// and calls for a suggestion at this width.
pub open spec fn unit_of_doc_emits(
    docu: Documentation,
    de: int,
    dc: int,
    u: int,
    width: int,
) -> bool {
    &&& 0 <= de < docu.entries@.len()
    &&& 0 <= dc < docu.entries@[de].1@.len()
    &&& 0 <= u < chunk_units(docu.entries@[de].1@[dc]).len()
    &&& unit_emits(
        docu.entries@[de].1@[dc].text@,
        scan_result(md_events_of(docu.entries@[de].1@[dc].text@)).1,
        chunk_units(docu.entries@[de].1@[dc])[u],
        width,
    )
}

/// The suggestion is exactly what the reflow pipeline produces for some
/// emitting unit of some chunk of the document.
pub open spec fn from_some_chunk(s: Suggestion, docu: Documentation, width: int) -> bool {
    exists|de: int, dc: int, u: int|
        #![trigger unit_of_doc_emits(docu, de, dc, u, width)]
        unit_of_doc_emits(docu, de, dc, u, width) && sugg_for_unit(
            s,
            docu.entries@[de].0,
            docu.entries@[de].1@[dc],
            u,
            width,
        )
}

/// The set holds, under `origin`, the exact suggestion the pipeline
/// produces for unit `u` of `chunk`.
pub open spec fn holds_sugg(
    set: SuggestionSet,
    origin: ContentOrigin,
    chunk: CheckableChunk,
    u: int,
    width: int,
) -> bool {
    exists|e: int, t: int|
        #![auto]
        0 <= e < set.entries@.len() && 0 <= t < set.entries@[e].1@.len()
            && crate::suggestion::same_origin(set.entries@[e].0, origin) && sugg_for_unit(
            set.entries@[e].1@[t],
            origin,
            chunk,
            u,
            width,
        )
}

/// `a` extends `b`: every entry of `b` is still at its index, with the
/// same origin and its suggestion list as a prefix.
pub open spec fn set_extends(b: SuggestionSet, a: SuggestionSet) -> bool {
    &&& b.entries@.len() <= a.entries@.len()
    &&& forall|e: int|
        0 <= e < b.entries@.len() ==> (#[trigger] a.entries@[e]).0 == b.entries@[e].0
            && b.entries@[e].1@.len() <= a.entries@[e].1@.len()
    &&& forall|e: int, t: int|
        #![trigger b.entries@[e].1@[t]]
        0 <= e < b.entries@.len() && 0 <= t < b.entries@[e].1@.len() ==> a.entries@[e].1@[t]
            == b.entries@[e].1@[t]
}

proof fn lemma_extends_holds(
    b: SuggestionSet,
    a: SuggestionSet,
    origin: ContentOrigin,
    chunk: CheckableChunk,
    u: int,
    width: int,
)
    requires
        set_extends(b, a),
        holds_sugg(b, origin, chunk, u, width),
    ensures
        holds_sugg(a, origin, chunk, u, width),
{
    let (e, t) = choose|e: int, t: int|
        #![auto]
        0 <= e < b.entries@.len() && 0 <= t < b.entries@[e].1@.len()
            && crate::suggestion::same_origin(b.entries@[e].0, origin) && sugg_for_unit(
            b.entries@[e].1@[t],
            origin,
            chunk,
            u,
            width,
        );
    assert(a.entries@[e].1@[t] == b.entries@[e].1@[t]);
    assert(0 <= e < a.entries@.len() && 0 <= t < a.entries@[e].1@.len()
        && crate::suggestion::same_origin((#[trigger] a.entries@[e]).0, origin)
        && sugg_for_unit(a.entries@[e].1@[t], origin, chunk, u, width));
}

/// Everything the reflow checker promises of its result: a well-formed
/// set whose entries all carry at least one suggestion; every suggestion
/// is exactly the pipeline's output for some emitting unit of some chunk
/// of the document (soundness); and every emitting unit of every chunk
/// has its suggestion in the set under the chunk's origin (completeness).
pub open spec fn reflow_post(docu: Documentation, width: int, set: SuggestionSet) -> bool {
    &&& set.wf()
    &&& forall|e: int| 0 <= e < set.entries@.len() ==> (#[trigger] set.entries@[e]).1@.len() > 0
    &&& forall|e: int, t: int|
        0 <= e < set.entries@.len() && 0 <= t < (#[trigger] set.entries@[e]).1@.len()
            ==> from_some_chunk(#[trigger] set.entries@[e].1@[t], docu, width)
    &&& forall|de: int, dc: int, u: int|
        #![trigger unit_of_doc_emits(docu, de, dc, u, width)]
        unit_of_doc_emits(docu, de, dc, u, width) ==> holds_sugg(
            set,
            docu.entries@[de].0,
            docu.entries@[de].1@[dc],
            u,
            width,
        )
}

/// Run the whole reflow pipeline over one chunk: markdown scan, unit
/// segmentation, one rewrap attempt per unit. Returns exactly one
/// suggestion per emitting unit, in unit order.
pub fn check_chunk(origin: &ContentOrigin, chunk: &CheckableChunk, max_line_length: usize) -> (r:
    Vec<Suggestion>)
    requires
        chunk.wf(),
    ensures
        ({
            let text = chunk.text@;
            let units = chunk_units(*chunk);
            let ubs = scan_result(md_events_of(text)).1;
            let w = max_line_length as int;
            &&& r@.len() == emit_count(text, ubs, units, w, units.len() as int)
            &&& forall|u: int|
                0 <= u < units.len() && unit_emits(text, ubs, #[trigger] units[u], w) ==> ({
                    let t = emit_count(text, ubs, units, w, u);
                    &&& 0 <= t < r@.len()
                    &&& sugg_for_unit(r@[t], *origin, *chunk, u, w)
                })
        }),
{
    let text: &Vec<u8> = &chunk.text;
    let events: Vec<MdEvent> = md_scan(text);
    let (units, ubs): (Vec<Range>, Vec<Range>) = scan_chunk(&events, text.len());
    let mut out: Vec<Suggestion> = Vec::new();
    let n: usize = units.len();
    let mut u: usize = 0;
    let ghost gtext = chunk.text@;
    let ghost gunits = chunk_units(*chunk);
    let ghost gubs = scan_result(md_events_of(chunk.text@)).1;
    let ghost w = max_line_length as int;
    while u < n
        invariant
            u <= n,
            chunk.wf(),
            gtext == chunk.text@,
            gunits == chunk_units(*chunk),
            gubs == scan_result(md_events_of(chunk.text@)).1,
            w == max_line_length as int,
            units@ == scan_result(md_events_of(chunk.text@)).0,
            ubs@ == gubs,
            n == gunits.len(),
            n == units@.len(),
            forall|k: int|
                0 <= k < units@.len() ==> (#[trigger] units@[k]).start <= units@[k].end
                    <= chunk.text@.len(),
            out@.len() == emit_count(gtext, gubs, gunits, w, u as int),
            forall|v: int|
                0 <= v < u && unit_emits(gtext, gubs, #[trigger] gunits[v], w) ==> ({
                    let t = emit_count(gtext, gubs, gunits, w, v);
                    &&& 0 <= t < out@.len()
                    &&& sugg_for_unit(out@[t], *origin, *chunk, v, w)
                }),
        decreases n - u,
    {
        proof {
            assert(emit_count(gtext, gubs, gunits, w, u as int + 1) == emit_count(
                gtext,
                gubs,
                gunits,
                w,
                u as int,
            ) + (if unit_emits(gtext, gubs, gunits[u as int], w) {
                1int
            } else {
                0int
            }));
        }
        proof {
            assert((#[trigger] units@[u as int]).start <= units@[u as int].end
                <= chunk.text@.len());
            assert(gunits[u as int] == widen_unit(
                gtext,
                scan_result(md_events_of(chunk.text@)).0[u as int],
            ));
        }
        let unit: Range = widen(&chunk.text, units[u]);
        proof {
            assert(unit == gunits[u as int]);
        }
        let mut one: Vec<Suggestion> = reflow_inner(origin, chunk, unit, &ubs, max_line_length);
        let ghost old_out = out@;
        match one.pop() {
            Some(s) => {
                proof {
                    assert(sugg_for_unit(s, *origin, *chunk, u as int, w));
                }
                out.push(s);
                proof {
                    assert(forall|t: int|
                        0 <= t < old_out.len() ==> out@[t] == #[trigger] old_out[t]);
                }
            },
            None => {},
        }
        u = u + 1;
    }
    out
}

impl Reflow {
    /// Check a whole document: every chunk of every origin is scanned and
    /// rewrapped; each emitting unit contributes one suggestion, filed
    /// under its origin. Never fails.
    pub fn check(docu: &Documentation, config: &ReflowConfig) -> (r: Result<
        SuggestionSet,
        CoreError,
    >)
        requires
            docu.wf(),
        ensures
            r is Ok,
            r matches Ok(set) ==> reflow_post(*docu, config.max_line_length as int, set),
    {
        let mut acc: SuggestionSet = SuggestionSet::new();
        let ghost w = config.max_line_length as int;
        let ne: usize = docu.entries.len();
        let mut e: usize = 0;
        while e < ne
            invariant
                e <= ne,
                ne == docu.entries@.len(),
                docu.wf(),
                w == config.max_line_length as int,
                acc.wf(),
                forall|e2: int|
                    0 <= e2 < acc.entries@.len() ==> (#[trigger] acc.entries@[e2]).1@.len() > 0,
                forall|e2: int, t: int|
                    0 <= e2 < acc.entries@.len() && 0 <= t < (#[trigger] acc.entries@[
                        e2
                    ]).1@.len() ==> from_some_chunk(#[trigger] acc.entries@[e2].1@[t], *docu, w),
                forall|de: int, dc: int, u: int|
                    #![trigger unit_of_doc_emits(*docu, de, dc, u, w)]
                    unit_of_doc_emits(*docu, de, dc, u, w) && de < e ==> holds_sugg(
                        acc,
                        docu.entries@[de].0,
                        docu.entries@[de].1@[dc],
                        u,
                        w,
                    ),
            decreases ne - e,
        {
            let nc: usize = docu.entries[e].1.len();
            let mut c: usize = 0;
            while c < nc
                invariant
                    e < ne,
                    c <= nc,
                    ne == docu.entries@.len(),
                    nc == docu.entries@[e as int].1@.len(),
                    docu.wf(),
                    w == config.max_line_length as int,
                    acc.wf(),
                    forall|e2: int|
                        0 <= e2 < acc.entries@.len() ==> (#[trigger] acc.entries@[
                            e2
                        ]).1@.len() > 0,
                    forall|e2: int, t: int|
                        0 <= e2 < acc.entries@.len() && 0 <= t < (#[trigger] acc.entries@[
                            e2
                        ]).1@.len() ==> from_some_chunk(
                            #[trigger] acc.entries@[e2].1@[t],
                            *docu,
                            w,
                        ),
                    forall|de: int, dc: int, u: int|
                        #![trigger unit_of_doc_emits(*docu, de, dc, u, w)]
                        unit_of_doc_emits(*docu, de, dc, u, w) && (de < e || (de == e && dc
                            < c)) ==> holds_sugg(
                            acc,
                            docu.entries@[de].0,
                            docu.entries@[de].1@[dc],
                            u,
                            w,
                        ),
                decreases nc - c,
            {
                let entry_origin: &ContentOrigin = &docu.entries[e].0;
                let chunk: &CheckableChunk = &docu.entries[e].1[c];
                let mut suggs: Vec<Suggestion> = check_chunk(
                    entry_origin,
                    chunk,
                    config.max_line_length,
                );
                let ghost all_suggs = suggs@;
                let ghost gchunk = docu.entries@[e as int].1@[c as int];
                let ghost gtext = gchunk.text@;
                let ghost gcunits = chunk_units(gchunk);
                let ghost gcubs = scan_result(md_events_of(gtext)).1;
                proof {
                    assert(all_suggs.len() == emit_count(
                        gtext,
                        gcubs,
                        gcunits,
                        w,
                        gcunits.len() as int,
                    ));
                    assert(forall|u: int|
                        0 <= u < gcunits.len() && unit_emits(gtext, gcubs, #[trigger] gcunits[u], w)
                            ==> 0 <= emit_count(gtext, gcubs, gcunits, w, u) < all_suggs.len()
                            && sugg_for_unit(
                            all_suggs[emit_count(gtext, gcubs, gcunits, w, u)],
                            docu.entries@[e as int].0,
                            gchunk,
                            u,
                            w,
                        ));
                }
                while suggs.len() > 0
                    invariant
                        e < ne,
                        c < nc,
                        ne == docu.entries@.len(),
                        nc == docu.entries@[e as int].1@.len(),
                        docu.wf(),
                        w == config.max_line_length as int,
                        gchunk == docu.entries@[e as int].1@[c as int],
                        gtext == gchunk.text@,
                        gcunits == chunk_units(gchunk),
                        gcubs == scan_result(md_events_of(gtext)).1,
                        suggs@.len() <= all_suggs.len(),
                        all_suggs.len() == emit_count(
                            gtext,
                            gcubs,
                            gcunits,
                            w,
                            gcunits.len() as int,
                        ),
                        forall|t: int|
                            0 <= t < suggs@.len() ==> #[trigger] suggs@[t] == all_suggs[
                                all_suggs.len() - suggs@.len() + t
                            ],
                        forall|u: int|
                            0 <= u < gcunits.len() && unit_emits(
                                gtext,
                                gcubs,
                                #[trigger] gcunits[u],
                                w,
                            ) ==> 0 <= emit_count(gtext, gcubs, gcunits, w, u)
                                < all_suggs.len() && sugg_for_unit(
                                all_suggs[emit_count(gtext, gcubs, gcunits, w, u)],
                                docu.entries@[e as int].0,
                                gchunk,
                                u,
                                w,
                            ),
                        acc.wf(),
                        forall|e2: int|
                            0 <= e2 < acc.entries@.len() ==> (#[trigger] acc.entries@[
                                e2
                            ]).1@.len() > 0,
                        forall|e2: int, t: int|
                            0 <= e2 < acc.entries@.len() && 0 <= t < (#[trigger] acc.entries@[
                                e2
                            ]).1@.len() ==> from_some_chunk(
                                #[trigger] acc.entries@[e2].1@[t],
                                *docu,
                                w,
                            ),
                        forall|de: int, dc: int, u: int|
                            #![trigger unit_of_doc_emits(*docu, de, dc, u, w)]
                            unit_of_doc_emits(*docu, de, dc, u, w) && (de < e || (de == e && dc
                                < c)) ==> holds_sugg(
                                acc,
                                docu.entries@[de].0,
                                docu.entries@[de].1@[dc],
                                u,
                                w,
                            ),
                        forall|u: int|
                            0 <= u < gcunits.len() && unit_emits(
                                gtext,
                                gcubs,
                                #[trigger] gcunits[u],
                                w,
                            ) && emit_count(gtext, gcubs, gcunits, w, u) < all_suggs.len()
                                - suggs@.len() ==> holds_sugg(
                                acc,
                                docu.entries@[e as int].0,
                                gchunk,
                                u,
                                w,
                            ),
                    decreases suggs@.len(),
                {
                    let ghost k = all_suggs.len() - suggs@.len();
                    let s: Suggestion = suggs.remove(0);
                    proof {
                        assert(s == all_suggs[k]);
                        assert(forall|t: int|
                            0 <= t < suggs@.len() ==> #[trigger] suggs@[t] == all_suggs[k + 1
                                + t]);
                    }
                    let o: ContentOrigin = docu.entries[e].0.duplicate();
                    let ghost before = acc;
                    acc.add(o, s);
                    proof {
                        let ghost origin_e = docu.entries@[e as int].0;
                        assert forall|e2: int| 0 <= e2 < before.entries@.len() implies (
                        #[trigger] acc.entries@[e2]).0 == before.entries@[e2].0
                            && before.entries@[e2].1@.len() <= acc.entries@[e2].1@.len() by {
                            if crate::suggestion::same_origin(before.entries@[e2].0, o) {
                                assert(acc.entries@[e2].1@ == before.entries@[e2].1@.push(s));
                            } else {
                                assert(acc.entries@[e2] == before.entries@[e2]);
                            }
                        };
                        assert forall|e2: int, t: int|
                            #![trigger before.entries@[e2].1@[t]]
                            0 <= e2 < before.entries@.len() && 0 <= t
                                < before.entries@[e2].1@.len() implies acc.entries@[e2].1@[t]
                            == before.entries@[e2].1@[t] by {
                            if crate::suggestion::same_origin(before.entries@[e2].0, o) {
                                assert(acc.entries@[e2].1@ == before.entries@[e2].1@.push(s));
                            } else {
                                assert(acc.entries@[e2] == before.entries@[e2]);
                            }
                        };
                        assert(set_extends(before, acc));
                        assert(from_some_chunk(s, *docu, w)) by {
                            lemma_emit_count_surjective(
                                gtext,
                                gcubs,
                                gcunits,
                                w,
                                k,
                                gcunits.len() as int,
                            );
                            let u = choose|u: int|
                                0 <= u < gcunits.len() && unit_emits(
                                    gtext,
                                    gcubs,
                                    #[trigger] gcunits[u],
                                    w,
                                ) && emit_count(gtext, gcubs, gcunits, w, u) == k;
                            assert(unit_of_doc_emits(*docu, e as int, c as int, u, w));
                            assert(sugg_for_unit(s, origin_e, gchunk, u, w));
                        };
                        assert forall|e2: int| 0 <= e2 < acc.entries@.len() implies (
                        #[trigger] acc.entries@[e2]).1@.len() > 0 by {
                            if e2 >= before.entries@.len() {
                                assert(acc.entries@[e2].1@ =~= seq![s]);
                            }
                        };
                        assert forall|e2: int, t: int|
                            0 <= e2 < acc.entries@.len() && 0 <= t < (#[trigger] acc.entries@[
                                e2
                            ]).1@.len() implies from_some_chunk(
                            #[trigger] acc.entries@[e2].1@[t],
                            *docu,
                            w,
                        ) by {
                            if e2 < before.entries@.len() {
                                if crate::suggestion::same_origin(before.entries@[e2].0, o) {
                                    assert(acc.entries@[e2].1@ == before.entries@[e2].1@.push(
                                        s,
                                    ));
                                    if t < before.entries@[e2].1@.len() {
                                        assert(acc.entries@[e2].1@[t] == before.entries@[
                                            e2
                                        ].1@[t]);
                                    } else {
                                        assert(acc.entries@[e2].1@[t] == s);
                                    }
                                } else {
                                    assert(acc.entries@[e2] == before.entries@[e2]);
                                }
                            } else {
                                assert(acc.entries@[e2].1@ =~= seq![s]);
                                assert(acc.entries@[e2].1@[t] == s);
                            }
                        };
                        assert forall|de: int, dc: int, u: int|
                            #![trigger unit_of_doc_emits(*docu, de, dc, u, w)]
                            unit_of_doc_emits(*docu, de, dc, u, w) && (de < e || (de == e && dc
                                < c)) implies holds_sugg(
                            acc,
                            docu.entries@[de].0,
                            docu.entries@[de].1@[dc],
                            u,
                            w,
                        ) by {
                            lemma_extends_holds(
                                before,
                                acc,
                                docu.entries@[de].0,
                                docu.entries@[de].1@[dc],
                                u,
                                w,
                            );
                        };
                        assert forall|u: int|
                            0 <= u < gcunits.len() && unit_emits(
                                gtext,
                                gcubs,
                                #[trigger] gcunits[u],
                                w,
                            ) && emit_count(gtext, gcubs, gcunits, w, u) < all_suggs.len()
                                - suggs@.len() implies holds_sugg(
                            acc,
                            origin_e,
                            gchunk,
                            u,
                            w,
                        ) by {
                            if emit_count(gtext, gcubs, gcunits, w, u) < k {
                                lemma_extends_holds(before, acc, origin_e, gchunk, u, w);
                            } else {
                                assert(emit_count(gtext, gcubs, gcunits, w, u) == k);
                                assert(sugg_for_unit(s, origin_e, gchunk, u, w));
                                crate::suggestion::lemma_same_origin_sym(o, origin_e);
                                if exists|i: int|
                                    0 <= i < before.entries@.len()
                                        && crate::suggestion::same_origin(
                                        (#[trigger] before.entries@[i]).0,
                                        o,
                                    ) {
                                    let fi = choose|i: int|
                                        0 <= i < before.entries@.len()
                                            && crate::suggestion::same_origin(
                                            (#[trigger] before.entries@[i]).0,
                                            o,
                                        );
                                    assert(acc.entries@[fi].1@ == before.entries@[fi].1@.push(
                                        s,
                                    ));
                                    let ti = before.entries@[fi].1@.len() as int;
                                    assert(acc.entries@[fi].1@[ti] == s);
                                    crate::suggestion::lemma_same_origin_trans(
                                        before.entries@[fi].0,
                                        origin_e,
                                        o,
                                    );
                                    assert(0 <= fi < acc.entries@.len() && 0 <= ti
                                        < acc.entries@[fi].1@.len()
                                        && crate::suggestion::same_origin(
                                        (#[trigger] acc.entries@[fi]).0,
                                        origin_e,
                                    ) && sugg_for_unit(
                                        acc.entries@[fi].1@[ti],
                                        origin_e,
                                        gchunk,
                                        u,
                                        w,
                                    ));
                                } else {
                                    let last = acc.entries@.len() - 1;
                                    assert(acc.entries@[last].1@ =~= seq![s]);
                                    assert(acc.entries@[last].1@[0] == s);
                                    assert(crate::suggestion::same_origin(
                                        acc.entries@[last].0,
                                        o,
                                    ));
                                    crate::suggestion::lemma_same_origin_trans(
                                        acc.entries@[last].0,
                                        origin_e,
                                        o,
                                    );
                                    assert(0 <= last < acc.entries@.len() && 0 < acc.entries@[
                                        last
                                    ].1@.len() && crate::suggestion::same_origin(
                                        (#[trigger] acc.entries@[last]).0,
                                        origin_e,
                                    ) && sugg_for_unit(
                                        acc.entries@[last].1@[0],
                                        origin_e,
                                        gchunk,
                                        u,
                                        w,
                                    ));
                                }
                            }
                        };
                    }
                }
                proof {
                    assert forall|u: int|
                        0 <= u < gcunits.len() && unit_emits(
                            gtext,
                            gcubs,
                            #[trigger] gcunits[u],
                            w,
                        ) implies holds_sugg(
                        acc,
                        docu.entries@[e as int].0,
                        gchunk,
                        u,
                        w,
                    ) by {
                        assert(emit_count(gtext, gcubs, gcunits, w, u + 1) == emit_count(
                            gtext,
                            gcubs,
                            gcunits,
                            w,
                            u,
                        ) + 1);
                        lemma_emit_count_le(gtext, gcubs, gcunits, w, u + 1, gcunits.len() as int);
                        assert(emit_count(gtext, gcubs, gcunits, w, u) < all_suggs.len());
                    };
                    assert forall|de: int, dc: int, u: int|
                        #![trigger unit_of_doc_emits(*docu, de, dc, u, w)]
                        unit_of_doc_emits(*docu, de, dc, u, w) && (de < e || (de == e && dc < c
                            + 1)) implies holds_sugg(
                        acc,
                        docu.entries@[de].0,
                        docu.entries@[de].1@[dc],
                        u,
                        w,
                    ) by {
                        if de == e && dc == c {
                            assert(docu.entries@[de].1@[dc] == gchunk);
                        }
                    };
                }
                c = c + 1;
            }
            proof {
                assert forall|de: int, dc: int, u: int|
                    #![trigger unit_of_doc_emits(*docu, de, dc, u, w)]
                    unit_of_doc_emits(*docu, de, dc, u, w) && de < e + 1 implies holds_sugg(
                    acc,
                    docu.entries@[de].0,
                    docu.entries@[de].1@[dc],
                    u,
                    w,
                ) by {
                    if de == e {
                        assert(dc < nc);
                    }
                };
            }
            e = e + 1;
        }
        Ok(acc)
    }
}

} // verus!
