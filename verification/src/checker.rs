//! Generic helpers shared by every checker: the tokenizer, and the
//! dispatcher that runs the enabled checkers over a document.

use vstd::prelude::*;
use vstd::seq_lib::*;
use crate::span::{Range, CoreError};
use crate::documentation::Documentation;
use crate::suggestion::{Detector, SuggestionSet};
use crate::reflow::{Reflow, ReflowConfig, reflow_post};

verus! {

/// Which checkers run, and with what parameters. The reflow engine is
/// enabled by giving it a configuration.
#[derive(Debug, Clone, Copy)]
pub struct Config {
    /// Reflow parameters; `None` disables the reflow checker.
    pub reflow: Option<ReflowConfig>,
}

impl Config {
    /// Whether the given detector is enabled.
    pub fn is_enabled(&self, detector: Detector) -> (r: bool)
        ensures
            r == (match detector {
                Detector::Reflow => self.reflow is Some,
            }),
    {
        match detector {
            Detector::Reflow => self.reflow.is_some(),
        }
    }
}

/// Check a full document with the enabled checkers and merge their
/// suggestion sets. With every checker disabled the result is empty; with
/// the reflow checker enabled the result is exactly its output: sound and
/// complete per `reflow_post`.
pub fn check(documentation: &Documentation, config: &Config) -> (r: Result<
    SuggestionSet,
    CoreError,
>)
    requires
        documentation.wf(),
    ensures
        r is Ok,
        r matches Ok(set) ==> set.wf(),
        config.reflow is None ==> (r matches Ok(set) ==> set.entries@.len() == 0),
        config.reflow matches Some(rc) ==> (r matches Ok(set) ==> reflow_post(
            *documentation,
            rc.max_line_length as int,
            set,
        )),
{
    match &config.reflow {
        Some(rc) => {
            let res: Result<SuggestionSet, CoreError> = Reflow::check(documentation, rc);
            match res {
                Ok(suggestions) => Ok(suggestions),
                Err(e) => {
                    proof {
                        assert(false);
                    }
                    Err(e)
                },
            }
        },
        None => Ok(SuggestionSet::new()),
    }
}

/// Bytes the tokenizer never includes in a token: the six ASCII blanks
/// and a fixed punctuation set `";:,.?!#(){}[]-\n\r/`` plus the double
/// quote and the backtick. The tokenizer works on bytes: a multi-byte
/// Unicode whitespace character counts as token content, not as a
/// separator. Multi-byte characters are never split, since every byte of
/// one is non-ASCII and therefore never ignored.
pub open spec fn is_ignored_byte(b: u8) -> bool {
    ||| b == 32u8  // space
    ||| b == 9u8   // tab
    ||| b == 10u8  // line feed
    ||| b == 11u8  // vertical tab
    ||| b == 12u8  // form feed
    ||| b == 13u8  // carriage return
    ||| b == 34u8  // "
    ||| b == 59u8  // ;
    ||| b == 58u8  // :
    ||| b == 44u8  // ,
    ||| b == 46u8  // .
    ||| b == 63u8  // ?
    ||| b == 33u8  // !
    ||| b == 35u8  // #
    ||| b == 40u8  // (
    ||| b == 41u8  // )
    ||| b == 123u8 // {
    ||| b == 125u8 // }
    ||| b == 91u8  // [
    ||| b == 93u8  // ]
    ||| b == 45u8  // -
    ||| b == 47u8  // /
    ||| b == 96u8  // `
}

/// Executable mirror of `is_ignored_byte`.
fn is_ignored(b: u8) -> (r: bool)
    ensures
        r == is_ignored_byte(b),
{
    b == 32 || b == 9 || b == 10 || b == 11 || b == 12 || b == 13 || b == 34 || b == 59 || b == 58
        || b == 44 || b == 46 || b == 63 || b == 33 || b == 35 || b == 40 || b == 41 || b == 123
        || b == 125 || b == 91 || b == 93 || b == 45 || b == 47 || b == 96
}

/// The non-ignored bytes of `s`, in order.
pub open spec fn kept_bytes(s: Seq<u8>) -> Seq<u8> {
    s.filter(|b: u8| !is_ignored_byte(b))
}

/// The concatenation of the slices of `s` at the given ranges, in order.
pub open spec fn concat_ranges(s: Seq<u8>, rs: Seq<Range>) -> Seq<u8>
    decreases rs.len(),
{
    if rs.len() == 0 {
        Seq::empty()
    } else {
        s.subrange(rs[0].start as int, rs[0].end as int) + concat_ranges(s, rs.drop_first())
    }
}

proof fn lemma_concat_ranges_push(s: Seq<u8>, rs: Seq<Range>, r: Range)
    requires
        forall|k: int| 0 <= k < rs.len() ==> (#[trigger] rs[k]).wf() && rs[k].end <= s.len(),
        r.wf(),
        r.end <= s.len(),
    ensures
        concat_ranges(s, rs.push(r)) =~= concat_ranges(s, rs) + s.subrange(
            r.start as int,
            r.end as int,
        ),
    decreases rs.len(),
{
    if rs.len() == 0 {
        assert(rs.push(r)[0] == r);
        assert(rs.push(r).drop_first() =~= Seq::<Range>::empty());
        assert(concat_ranges(s, Seq::<Range>::empty()) =~= Seq::<u8>::empty());
        assert(concat_ranges(s, rs.push(r)) =~= s.subrange(r.start as int, r.end as int));
    } else {
        assert(forall|k: int|
            0 <= k < rs.drop_first().len() ==> (#[trigger] rs.drop_first()[k]) == rs[k + 1]);
        lemma_concat_ranges_push(s, rs.drop_first(), r);
        assert(rs.push(r).drop_first() =~= rs.drop_first().push(r));
        assert(rs.push(r)[0] == rs[0]);
        assert(concat_ranges(s, rs.push(r)) =~= s.subrange(rs[0].start as int, rs[0].end as int)
            + (concat_ranges(s, rs.drop_first()) + s.subrange(r.start as int, r.end as int)));
    }
}

proof fn lemma_filter_take_step(s: Seq<u8>, i: int)
    requires
        0 <= i < s.len(),
    ensures
        !is_ignored_byte(s[i]) ==> kept_bytes(s.take(i + 1)) =~= kept_bytes(s.take(i)).push(s[i]),
        is_ignored_byte(s[i]) ==> kept_bytes(s.take(i + 1)) =~= kept_bytes(s.take(i)),
{
    reveal(Seq::filter);
    assert(s.take(i + 1).drop_last() =~= s.take(i));
    assert(s.take(i + 1).last() == s[i]);
}

/// Well-formedness of a token decomposition: every range is non-empty, lies
/// within `s`, covers only non-ignored bytes, is maximal (the byte before
/// its start and the byte at its end, where they exist, are ignored), the
/// ranges appear in increasing order, and every non-ignored byte of `s` is
/// covered. These conditions pin the decomposition uniquely.
pub open spec fn token_ranges_wf(s: Seq<u8>, rs: Seq<Range>) -> bool {
    &&& forall|k: int| 0 <= k < rs.len() ==> (#[trigger] rs[k]).start < rs[k].end <= s.len()
    &&& forall|k: int, i: int|
        #![trigger rs[k], s[i]]
        0 <= k < rs.len() && rs[k].start <= i < rs[k].end ==> !is_ignored_byte(s[i])
    &&& forall|k: int|
        0 <= k < rs.len() ==> ((#[trigger] rs[k]).start > 0 ==> is_ignored_byte(
            s[rs[k].start - 1],
        ))
    &&& forall|k: int|
        0 <= k < rs.len() ==> ((#[trigger] rs[k]).end < s.len() ==> is_ignored_byte(
            s[rs[k].end as int],
        ))
    &&& forall|k: int| 0 <= k < rs.len() - 1 ==> (#[trigger] rs[k]).end <= rs[k + 1].start
    &&& forall|i: int|
        0 <= i < s.len() && !is_ignored_byte(#[trigger] s[i]) ==> exists|k: int|
            0 <= k < rs.len() && (#[trigger] rs[k]).start <= i < rs[k].end
}

/// Segment a byte string into word-like ranges.
///
/// A token is a maximal run of bytes that are neither ASCII whitespace nor
/// in the fixed punctuation set; the returned half-open ranges are ordered,
/// non-empty, and pairwise disjoint, and concatenating the slices at the
/// returned ranges reproduces exactly the non-ignored bytes of the input in
/// their original order.
#[verifier::rlimit(50)]
pub fn tokenize(s: &Vec<u8>) -> (r: Vec<Range>)
    ensures
        token_ranges_wf(s@, r@),
        concat_ranges(s@, r@) == kept_bytes(s@),
{
    let n: usize = s.len();
    let mut out: Vec<Range> = Vec::new();
    let mut started: bool = false;
    let mut start: usize = 0;
    let mut i: usize = 0;
    proof {
        assert(s@.take(0) =~= Seq::<u8>::empty());
        reveal(Seq::filter);
    }
    while i < n
        invariant
            n == s@.len(),
            i <= n,
            started ==> start < i,
            started ==> forall|j: int| start <= j < i ==> !is_ignored_byte(s@[j]),
            started ==> (start == 0 || is_ignored_byte(s@[start as int - 1])),
            !started ==> (i == 0 || is_ignored_byte(s@[i as int - 1])),
            forall|k: int|
                0 <= k < out@.len() ==> ((#[trigger] out@[k]).start > 0 ==> is_ignored_byte(
                    s@[out@[k].start - 1],
                )),
            forall|k: int|
                0 <= k < out@.len() ==> ((#[trigger] out@[k]).end < n ==> is_ignored_byte(
                    s@[out@[k].end as int],
                )),
            forall|k: int| 0 <= k < out@.len() ==> (#[trigger] out@[k]).start < out@[k].end
                && out@[k].end <= i,
            !started ==> forall|k: int| 0 <= k < out@.len() ==> (#[trigger] out@[k]).end <= i,
            started ==> forall|k: int| 0 <= k < out@.len() ==> (#[trigger] out@[k]).end
                <= start,
            forall|k: int, j: int|
                #![trigger out@[k], s@[j]]
                0 <= k < out@.len() && out@[k].start <= j < out@[k].end
                    ==> !is_ignored_byte(s@[j]),
            forall|k: int| 0 <= k < out@.len() - 1 ==> (#[trigger] out@[k]).end <= out@[k
                + 1].start,
            forall|j: int|
                0 <= j < i && !is_ignored_byte(#[trigger] s@[j]) ==> (started && start <= j)
                    || exists|k: int| 0 <= k < out@.len() && (#[trigger] out@[k]).start <= j
                    < out@[k].end,
            concat_ranges(s@, out@) + (if started {
                s@.subrange(start as int, i as int)
            } else {
                Seq::<u8>::empty()
            }) == kept_bytes(s@.take(i as int)),
        decreases n - i,
    {
        let b: u8 = s[i];
        proof {
            lemma_filter_take_step(s@, i as int);
        }
        if is_ignored(b) {
            if started {
                let ghost old_out = out@;
                out.push(Range { start, end: i });
                proof {
                    lemma_concat_ranges_push(s@, old_out, Range { start, end: i });
                    assert(forall|k: int|
                        0 <= k < old_out.len() ==> out@[k] == #[trigger] old_out[k]);
                    assert(out@[out@.len() - 1] == Range { start, end: i });
                }
                started = false;
            }
            proof {
                assert(concat_ranges(s@, out@) + Seq::<u8>::empty() =~= concat_ranges(
                    s@,
                    out@,
                ));
            }
        } else {
            if !started {
                started = true;
                start = i;
                proof {
                    assert(s@.subrange(start as int, i as int + 1) =~= Seq::<u8>::empty().push(
                        s@[i as int],
                    ));
                    assert(concat_ranges(s@, out@) + Seq::<u8>::empty() =~= concat_ranges(
                        s@,
                        out@,
                    ));
                }
            } else {
                proof {
                    assert(s@.subrange(start as int, i as int + 1) =~= s@.subrange(
                        start as int,
                        i as int,
                    ).push(s@[i as int]));
                }
            }
            proof {
                assert(concat_ranges(s@, out@) + s@.subrange(start as int, i as int + 1)
                    =~= (concat_ranges(s@, out@) + s@.subrange(start as int, i as int)).push(
                    s@[i as int],
                ));
            }
        }
        i = i + 1;
    }
    if started {
        let ghost old_out = out@;
        out.push(Range { start, end: n });
        proof {
            lemma_concat_ranges_push(s@, old_out, Range { start, end: n });
            assert(forall|k: int| 0 <= k < old_out.len() ==> out@[k] == #[trigger] old_out[k]);
            assert(out@[out@.len() - 1] == Range { start, end: n });
        }
    }
    proof {
        assert(s@.take(n as int) =~= s@);
        if !started {
            assert(concat_ranges(s@, out@) + Seq::<u8>::empty() =~= concat_ranges(s@, out@));
        }
    }
    out
}

} // verus!
