//! Suggestions produced by the checkers, and the per-origin collection that
//! gathers them.

use vstd::prelude::*;
use crate::span::{Span, Range};

verus! {

/// The checker that produced a suggestion. The reflow engine is the one
/// detector this crate implements; external backends plug in beside it.
#[derive(Clone, Copy, Debug, PartialEq, Eq, Structural)]
pub enum Detector {
    Reflow,
}

/// Where a checked chunk came from.
#[derive(Debug)]
pub enum ContentOrigin {
    /// A source file, identified by its path bytes.
    RustSourceFile(Vec<u8>),
    /// A synthetic origin used by tests.
    TestEntity,
}

/// Two origins denote the same provenance.
pub open spec fn same_origin(a: ContentOrigin, b: ContentOrigin) -> bool {
    match (a, b) {
        (ContentOrigin::RustSourceFile(p), ContentOrigin::RustSourceFile(q)) => p@ == q@,
        (ContentOrigin::TestEntity, ContentOrigin::TestEntity) => true,
        _ => false,
    }
}

/// `same_origin` is reflexive.
pub proof fn lemma_same_origin_refl(a: ContentOrigin)
    ensures
        same_origin(a, a),
{
}

/// `same_origin` is symmetric.
pub proof fn lemma_same_origin_sym(a: ContentOrigin, b: ContentOrigin)
    requires
        same_origin(a, b),
    ensures
        same_origin(b, a),
{
}

/// Two origins equal to a third are equal to each other.
pub proof fn lemma_same_origin_trans(a: ContentOrigin, b: ContentOrigin, c: ContentOrigin)
    requires
        same_origin(a, c),
        same_origin(b, c),
    ensures
        same_origin(a, b),
{
}

impl ContentOrigin {
    /// Compare two origins.
    pub fn same(&self, other: &ContentOrigin) -> (r: bool)
        ensures
            r == same_origin(*self, *other),
    {
        match (self, other) {
            (ContentOrigin::RustSourceFile(p), ContentOrigin::RustSourceFile(q)) => {
                let r: bool = p == q;
                proof {
                    if r {
                        assert(p@ =~= q@);
                    }
                }
                r
            },
            (ContentOrigin::TestEntity, ContentOrigin::TestEntity) => true,
            _ => false,
        }
    }

    /// An owned copy of this origin.
    pub fn duplicate(&self) -> (r: ContentOrigin)
        ensures
            same_origin(r, *self),
    {
        match self {
            ContentOrigin::RustSourceFile(p) => {
                let mut q: Vec<u8> = Vec::new();
                let mut i: usize = 0;
                let n: usize = p.len();
                while i < n
                    invariant
                        i <= n,
                        n == p@.len(),
                        q@ == p@.subrange(0, i as int),
                    decreases n - i,
                {
                    q.push(p[i]);
                    proof {
                        assert(p@.subrange(0, i as int + 1) =~= p@.subrange(0, i as int).push(
                            p@[i as int],
                        ));
                    }
                    i = i + 1;
                }
                proof {
                    assert(p@.subrange(0, n as int) =~= p@);
                }
                ContentOrigin::RustSourceFile(q)
            },
            ContentOrigin::TestEntity => ContentOrigin::TestEntity,
        }
    }
}

/// A single replacement proposal, anchored both in the virtual text (by a
/// byte `Range`) and in the original source (by a `Span`).
#[derive(Debug)]
pub struct Suggestion {
    /// Which checker produced this suggestion.
    pub detector: Detector,
    /// The covered byte range of the chunk's virtual text.
    pub range: Range,
    /// The resolved source extent of that range.
    pub span: Span,
    /// Where the chunk came from.
    pub origin: ContentOrigin,
    /// Ordered replacement candidates for the covered range.
    pub replacements: Vec<Vec<u8>>,
    /// A short human-readable note.
    pub description: Option<Vec<u8>>,
}

/// A multi-map from origin to the ordered suggestions found there. Entries
/// keep insertion order and origins are unique.
#[derive(Debug)]
pub struct SuggestionSet {
    /// The per-origin suggestion lists, in insertion order.
    pub entries: Vec<(ContentOrigin, Vec<Suggestion>)>,
}

impl SuggestionSet {
    /// Origins are pairwise distinct.
    pub open spec fn wf(self) -> bool {
        forall|i: int, j: int|
            0 <= i < j < self.entries@.len() ==> !same_origin(
                (#[trigger] self.entries@[i]).0,
                (#[trigger] self.entries@[j]).0,
            )
    }

    /// An empty set.
    pub fn new() -> (r: Self)
        ensures
            r.wf(),
            r.entries@.len() == 0,
    {
        Self { entries: Vec::new() }
    }

    /// Number of origins that carry suggestions.
    pub fn len(&self) -> (r: usize)
        ensures
            r == self.entries@.len(),
    {
        self.entries.len()
    }

    /// Total number of suggestions over all origins; saturates at
    /// `usize::MAX`, which the total, held in memory, never reaches.
    pub fn total_count(&self) -> (r: usize)
        ensures
            Self::count_upto(self.entries@, self.entries@.len() as int) <= usize::MAX ==> r as int
                == Self::count_upto(self.entries@, self.entries@.len() as int),
    {
        let mut sum: usize = 0;
        let mut i: usize = 0;
        let n: usize = self.entries.len();
        while i < n
            invariant
                i <= n,
                n == self.entries@.len(),
                Self::count_upto(self.entries@, i as int) <= usize::MAX ==> sum as int
                    == Self::count_upto(self.entries@, i as int),
                Self::count_upto(self.entries@, i as int) > usize::MAX ==> sum == usize::MAX,
            decreases n - i,
        {
            proof {
                Self::lemma_count_bound(self.entries@, i as int);
            }
            let here: usize = self.entries[i].1.len();
            if usize::MAX - sum < here {
                sum = usize::MAX;
            } else {
                sum = sum + here;
            }
            i = i + 1;
        }
        sum
    }

    /// Append a suggestion under its origin: extends the origin's list when
    /// the origin is already present, otherwise starts a new entry at the
    /// end.
    pub fn add(&mut self, origin: ContentOrigin, suggestion: Suggestion)
        requires
            old(self).wf(),
        ensures
            final(self).wf(),
            (exists|i: int|
                0 <= i < old(self).entries@.len() && same_origin(
                    (#[trigger] old(self).entries@[i]).0,
                    origin,
                )) ==> final(self).entries@.len() == old(self).entries@.len() && (forall|i: int|
                0 <= i < old(self).entries@.len() && same_origin(
                    (#[trigger] old(self).entries@[i]).0,
                    origin,
                ) ==> final(self).entries@[i].0 == old(self).entries@[i].0 && final(self).entries@[i].1@ == old(self).entries@[i].1@.push(suggestion)) && (forall|j: int|
                0 <= j < old(self).entries@.len() && !same_origin(
                    (#[trigger] old(self).entries@[j]).0,
                    origin,
                ) ==> final(self).entries@[j] == old(self).entries@[j]),
            (!exists|i: int|
                0 <= i < old(self).entries@.len() && same_origin(
                    (#[trigger] old(self).entries@[i]).0,
                    origin,
                )) ==> final(self).entries@.len() == old(self).entries@.len() + 1 && (forall|
                j: int,
            |
                0 <= j < old(self).entries@.len() ==> final(self).entries@[j] == old(self).entries@[j]) && same_origin(
                final(self).entries@[old(self).entries@.len() as int].0,
                origin,
            ) && final(self).entries@[old(self).entries@.len() as int].1@ =~= seq![suggestion],
    {
        let n: usize = self.entries.len();
        let mut i: usize = 0;
        while i < n
            invariant
                i <= n,
                n == self.entries@.len(),
                old(self).wf(),
                forall|j: int|
                    0 <= j < i ==> !same_origin((#[trigger] self.entries@[j]).0, origin),
                *self == *old(self),
            decreases n - i,
        {
            let hit: bool = self.entries[i].0.same(&origin);
            if hit {
                let ghost fi = i as int;
                let entry: &mut (ContentOrigin, Vec<Suggestion>) = &mut self.entries[i];
                entry.1.push(suggestion);
                proof {
                    assert(self.entries@[fi].1@ == old(self).entries@[fi].1@.push(suggestion));
                    assert(self.entries@[fi].0 == old(self).entries@[fi].0);
                    assert(forall|j: int|
                        0 <= j < self.entries@.len() && j != fi ==> self.entries@[j]
                            == #[trigger] old(self).entries@[j]);
                    assert(forall|j: int|
                        0 <= j < self.entries@.len() ==> (#[trigger] self.entries@[j]).0 == old(
                            self,
                        ).entries@[j].0);
                    assert forall|i2: int|
                        0 <= i2 < old(self).entries@.len() && same_origin(
                            (#[trigger] old(self).entries@[i2]).0,
                            origin,
                        ) implies i2 == fi by {
                        if i2 != fi {
                            lemma_same_origin_trans(
                                old(self).entries@[i2].0,
                                old(self).entries@[fi].0,
                                origin,
                            );
                            lemma_same_origin_sym(
                                old(self).entries@[i2].0,
                                old(self).entries@[fi].0,
                            );
                        }
                    };
                }
                return ;
            }
            i = i + 1;
        }
        let mut list: Vec<Suggestion> = Vec::new();
        list.push(suggestion);
        self.entries.push((origin, list));
        proof {
            assert(forall|j: int|
                0 <= j < old(self).entries@.len() ==> self.entries@[j] == #[trigger] old(self).entries@[j]);
        }
    }

    /// Whether some entry carries this origin.
    pub open spec fn has_origin(self, origin: ContentOrigin) -> bool {
        exists|i: int|
            0 <= i < self.entries@.len() && same_origin((#[trigger] self.entries@[i]).0, origin)
    }

    /// Entry `e2` of `entries` is one of `from_entries`, moved whole:
    /// same origin and the identical suggestion list.
    pub open spec fn entry_moved_from(
        entries: Seq<(ContentOrigin, Vec<Suggestion>)>,
        e2: int,
        from_entries: Seq<(ContentOrigin, Vec<Suggestion>)>,
    ) -> bool {
        exists|j: int|
            #![auto]
            0 <= j < from_entries.len() && same_origin(entries[e2].0, from_entries[j].0)
                && entries[e2].1@ == from_entries[j].1@
    }

    /// Entry `j` of `from_entries` appears whole somewhere in
    /// `entries[lo..]`: same origin and the identical suggestion list.
    pub open spec fn entry_moved_to(
        from_entries: Seq<(ContentOrigin, Vec<Suggestion>)>,
        j: int,
        entries: Seq<(ContentOrigin, Vec<Suggestion>)>,
        lo: int,
    ) -> bool {
        exists|e2: int|
            #![auto]
            lo <= e2 < entries.len() && same_origin(entries[e2].0, from_entries[j].0)
                && entries[e2].1@ == from_entries[j].1@
    }

    /// Set union: every suggestion of `other` is appended under its origin,
    /// keeping per-origin order: an origin already present keeps its index
    /// and gets `other`'s list appended after its own; origins only in
    /// `other` are moved in whole, after the existing entries. Origins of
    /// `other` that carry no suggestions still get an entry.
    pub fn join(&mut self, other: SuggestionSet)
        requires
            old(self).wf(),
            other.wf(),
        ensures
            final(self).wf(),
            forall|o: ContentOrigin|
                #[trigger] final(self).has_origin(o) <==> (old(self).has_origin(o)
                    || other.has_origin(o)),
            final(self).entries@.len() >= old(self).entries@.len(),
            forall|i: int|
                0 <= i < old(self).entries@.len() ==> (#[trigger] final(self).entries@[i]).0
                    == old(self).entries@[i].0,
            forall|i: int|
                0 <= i < old(self).entries@.len() && !(exists|j: int|
                    0 <= j < other.entries@.len() && same_origin(
                        (#[trigger] other.entries@[j]).0,
                        old(self).entries@[i].0,
                    )) ==> (#[trigger] final(self).entries@[i]).1@ == old(self).entries@[i].1@,
            forall|i: int, j: int|
                #![trigger old(self).entries@[i], other.entries@[j]]
                0 <= i < old(self).entries@.len() && 0 <= j < other.entries@.len()
                    && same_origin(other.entries@[j].0, old(self).entries@[i].0) ==> final(self).entries@[i].1@ == old(self).entries@[i].1@ + other.entries@[j].1@,
            forall|e2: int|
                old(self).entries@.len() <= e2 < final(self).entries@.len()
                    ==> #[trigger] Self::entry_moved_from(
                    final(self).entries@,
                    e2,
                    other.entries@,
                ),
            forall|j: int|
                0 <= j < other.entries@.len() && !(exists|i: int|
                    0 <= i < old(self).entries@.len() && same_origin(
                        (#[trigger] old(self).entries@[i]).0,
                        other.entries@[j].0,
                    )) ==> #[trigger] Self::entry_moved_to(
                    other.entries@,
                    j,
                    final(self).entries@,
                    old(self).entries@.len() as int,
                ),
    {
        let mut rest: Vec<(ContentOrigin, Vec<Suggestion>)> = other.entries;
        let ghost all = rest@;
        let ghost old_len = old(self).entries@.len() as int;
        proof {
            assert(forall|o: ContentOrigin|
                #[trigger] other.has_origin(o) <==> exists|i: int|
                    0 <= i < all.len() && same_origin((#[trigger] all[i]).0, o));
            assert(forall|j1: int, j2: int|
                #![trigger all[j1], all[j2]]
                0 <= j1 < j2 < all.len() ==> !same_origin(all[j1].0, all[j2].0));
        }
        while rest.len() > 0
            invariant
                old(self).wf(),
                old_len == old(self).entries@.len(),
                self.wf(),
                rest@.len() <= all.len(),
                rest@ =~= all.subrange(all.len() - rest@.len(), all.len() as int),
                forall|j1: int, j2: int|
                    #![trigger all[j1], all[j2]]
                    0 <= j1 < j2 < all.len() ==> !same_origin(all[j1].0, all[j2].0),
                self.entries@.len() >= old_len,
                forall|i: int|
                    0 <= i < old_len ==> (#[trigger] self.entries@[i]).0 == old(self).entries@[i].0,
                forall|i: int|
                    0 <= i < old_len && !(exists|j: int|
                        0 <= j < all.len() - rest@.len() && same_origin(
                            (#[trigger] all[j]).0,
                            old(self).entries@[i].0,
                        )) ==> (#[trigger] self.entries@[i]).1@ == old(self).entries@[i].1@,
                forall|i: int, j: int|
                    #![trigger old(self).entries@[i], all[j]]
                    0 <= i < old_len && 0 <= j < all.len() - rest@.len() && same_origin(
                        all[j].0,
                        old(self).entries@[i].0,
                    ) ==> self.entries@[i].1@ == old(self).entries@[i].1@ + all[j].1@,
                forall|e2: int|
                    old_len <= e2 < self.entries@.len() ==> exists|j: int|
                        #![auto]
                        0 <= j < all.len() - rest@.len() && same_origin(
                            (#[trigger] self.entries@[e2]).0,
                            all[j].0,
                        ) && self.entries@[e2].1@ == all[j].1@,
                forall|j: int|
                    0 <= j < all.len() - rest@.len() && !(exists|i: int|
                        0 <= i < old_len && same_origin(
                            (#[trigger] old(self).entries@[i]).0,
                            all[j].0,
                        )) ==> exists|e2: int|
                        #![auto]
                        old_len <= e2 < self.entries@.len() && same_origin(
                            self.entries@[e2].0,
                            (#[trigger] all[j]).0,
                        ) && self.entries@[e2].1@ == all[j].1@,
                forall|o: ContentOrigin|
                    #[trigger] self.has_origin(o) <==> (old(self).has_origin(o) || exists|i: int|
                        0 <= i < all.len() - rest@.len() && same_origin((#[trigger] all[i]).0, o)),
            decreases rest@.len(),
        {
            let ghost k = all.len() - rest@.len();
            proof {
                assert(rest@[0] == all[k as int]);
            }
            let (origin0, mut suggs): (ContentOrigin, Vec<Suggestion>) = rest.remove(0);
            proof {
                assert(origin0 == all[k as int].0);
                assert(suggs@ == all[k as int].1@);
                assert(rest@ =~= all.subrange(k + 1, all.len() as int));
                lemma_same_origin_refl(origin0);
            }
            let ghost before = *self;
            let n: usize = self.entries.len();
            let mut i: usize = 0;
            let mut found: usize = n;
            while i < n && found == n
                invariant
                    i <= n,
                    found == n || found < n,
                    n == self.entries@.len(),
                    *self == before,
                    found == n ==> forall|j: int|
                        0 <= j < i ==> !same_origin((#[trigger] self.entries@[j]).0, origin0),
                    found < n ==> same_origin(self.entries@[found as int].0, origin0) && (forall|
                        j: int,
                    |
                        0 <= j < found ==> !same_origin(
                            (#[trigger] self.entries@[j]).0,
                            origin0,
                        )),
                decreases n - i + (if found == n {
                    1int
                } else {
                    0int
                }),
            {
                let hit: bool = self.entries[i].0.same(&origin0);
                if hit {
                    found = i;
                } else {
                    i = i + 1;
                }
            }
            if found < n {
                let ghost fi = found as int;
                proof {
                    // the match sits among the original entries: a tail
                    // entry's origin comes from an earlier entry of `other`,
                    // and origins within `other` are pairwise distinct
                    if fi >= old_len {
                        let j2 = choose|j: int|
                            #![auto]
                            0 <= j < k && same_origin(before.entries@[fi].0, all[j].0)
                                && before.entries@[fi].1@ == all[j].1@;
                        lemma_same_origin_sym(before.entries@[fi].0, all[j2].0);
                        lemma_same_origin_trans(all[j2].0, all[k as int].0, before.entries@[fi].0);
                        assert(false);
                    }
                    // no earlier entry of `other` matched this origin
                    if exists|j: int|
                        0 <= j < k && same_origin((#[trigger] all[j]).0, before.entries@[fi].0) {
                        let j2 = choose|j: int|
                            0 <= j < k && same_origin(
                                (#[trigger] all[j]).0,
                                before.entries@[fi].0,
                            );
                        lemma_same_origin_trans(all[j2].0, all[k as int].0, before.entries@[fi].0);
                        assert(false);
                    }
                    assert(before.entries@[fi].1@ == old(self).entries@[fi].1@);
                }
                let entry: &mut (ContentOrigin, Vec<Suggestion>) = &mut self.entries[found];
                entry.1.append(&mut suggs);
                proof {
                    assert(self.entries@[fi].0 == before.entries@[fi].0);
                    assert(self.entries@[fi].1@ == old(self).entries@[fi].1@ + all[k as int].1@);
                    assert(forall|j: int|
                        0 <= j < self.entries@.len() && j != fi ==> self.entries@[j]
                            == #[trigger] before.entries@[j]);
                    assert(forall|o: ContentOrigin|
                        #[trigger] self.has_origin(o) <==> before.has_origin(o));
                    assert forall|i2: int, j: int|
                        #![trigger old(self).entries@[i2], all[j]]
                        0 <= i2 < old_len && 0 <= j < k + 1 && same_origin(
                            all[j].0,
                            old(self).entries@[i2].0,
                        ) implies self.entries@[i2].1@ == old(self).entries@[i2].1@ + all[j].1@ by {
                        if j == k {
                            if i2 != fi {
                                // two distinct well-formed entries cannot share the origin
                                lemma_same_origin_sym(all[k as int].0, old(self).entries@[i2].0);
                                lemma_same_origin_trans(
                                    before.entries@[i2].0,
                                    before.entries@[fi].0,
                                    all[k as int].0,
                                );
                                if i2 < fi {
                                    assert(!same_origin(
                                        before.entries@[i2].0,
                                        before.entries@[fi].0,
                                    ));
                                } else {
                                    lemma_same_origin_sym(
                                        before.entries@[i2].0,
                                        before.entries@[fi].0,
                                    );
                                    assert(!same_origin(
                                        before.entries@[fi].0,
                                        before.entries@[i2].0,
                                    ));
                                }
                                assert(false);
                            }
                        }
                    };
                    assert forall|i2: int|
                        0 <= i2 < old_len && !(exists|j: int|
                            0 <= j < k + 1 && same_origin(
                                (#[trigger] all[j]).0,
                                old(self).entries@[i2].0,
                            )) implies (#[trigger] self.entries@[i2]).1@ == old(self).entries@[
                        i2
                    ].1@ by {
                        assert(i2 != fi);
                    };
                }
            } else {
                self.entries.push((origin0, suggs));
                proof {
                    assert(forall|j: int|
                        0 <= j < before.entries@.len() ==> self.entries@[j]
                            == #[trigger] before.entries@[j]);
                    let last = self.entries@.len() - 1;
                    assert(self.entries@[last].0 == all[k as int].0);
                    assert(self.entries@[last].1@ == all[k as int].1@);
                    assert forall|o: ContentOrigin| #[trigger] self.has_origin(o) <==> (
                    before.has_origin(o) || same_origin(all[k as int].0, o)) by {
                        if same_origin(all[k as int].0, o) {
                            assert(same_origin((#[trigger] self.entries@[last]).0, o));
                        }
                        if self.has_origin(o) {
                            let w = choose|j: int|
                                0 <= j < self.entries@.len() && same_origin(
                                    (#[trigger] self.entries@[j]).0,
                                    o,
                                );
                            if w < last {
                                assert(same_origin((#[trigger] before.entries@[w]).0, o));
                            } else {
                                assert(same_origin(all[k as int].0, o));
                            }
                        }
                        if before.has_origin(o) {
                            let w = choose|j: int|
                                0 <= j < before.entries@.len() && same_origin(
                                    (#[trigger] before.entries@[j]).0,
                                    o,
                                );
                            assert(same_origin((#[trigger] self.entries@[w]).0, o));
                        }
                    };
                    assert forall|j: int|
                        0 <= j < k + 1 && !(exists|i2: int|
                            0 <= i2 < old_len && same_origin(
                                (#[trigger] old(self).entries@[i2]).0,
                                all[j].0,
                            )) implies exists|e2: int|
                        #![auto]
                        old_len <= e2 < self.entries@.len() && same_origin(
                            self.entries@[e2].0,
                            (#[trigger] all[j]).0,
                        ) && self.entries@[e2].1@ == all[j].1@ by {
                        if j == k {
                            assert(same_origin(self.entries@[last].0, all[k as int].0));
                        }
                    };
                }
            }
            proof {
                assert forall|o: ContentOrigin| #[trigger] self.has_origin(o) <==> (old(self).has_origin(o) || exists|i2: int|
                    0 <= i2 < k + 1 && same_origin((#[trigger] all[i2]).0, o)) by {
                    assert((exists|i2: int|
                        0 <= i2 < k + 1 && same_origin((#[trigger] all[i2]).0, o)) <==> ((exists|
                        i2: int,
                    |
                        0 <= i2 < k && same_origin((#[trigger] all[i2]).0, o)) || same_origin(
                        all[k as int].0,
                        o,
                    )));
                };
            }
        }
        proof {
            assert(all == other.entries@);
            assert forall|e2: int|
                old_len <= e2 < self.entries@.len() implies #[trigger] Self::entry_moved_from(
                self.entries@,
                e2,
                other.entries@,
            ) by {
                let j = choose|j: int|
                    #![auto]
                    0 <= j < all.len() - rest@.len() && same_origin(
                        self.entries@[e2].0,
                        all[j].0,
                    ) && self.entries@[e2].1@ == all[j].1@;
                assert(0 <= j < other.entries@.len() && same_origin(
                    self.entries@[e2].0,
                    other.entries@[j].0,
                ) && self.entries@[e2].1@ == other.entries@[j].1@);
            };
            assert forall|j: int|
                0 <= j < other.entries@.len() && !(exists|i: int|
                    0 <= i < old_len && same_origin(
                        (#[trigger] old(self).entries@[i]).0,
                        other.entries@[j].0,
                    )) implies #[trigger] Self::entry_moved_to(
                other.entries@,
                j,
                self.entries@,
                old_len,
            ) by {
                assert(0 <= j < all.len() - rest@.len());
                let e2 = choose|e2: int|
                    #![auto]
                    old_len <= e2 < self.entries@.len() && same_origin(
                        self.entries@[e2].0,
                        all[j].0,
                    ) && self.entries@[e2].1@ == all[j].1@;
                assert(old_len <= e2 < self.entries@.len() && same_origin(
                    self.entries@[e2].0,
                    other.entries@[j].0,
                ) && self.entries@[e2].1@ == other.entries@[j].1@);
            };
        }
    }

    /// Suggestions in the first `n` entries.
    pub open spec fn count_upto(entries: Seq<(ContentOrigin, Vec<Suggestion>)>, n: int) -> int
        decreases n,
    {
        if n <= 0 {
            0
        } else {
            Self::count_upto(entries, n - 1) + entries[n - 1].1@.len()
        }
    }

    proof fn lemma_count_bound(entries: Seq<(ContentOrigin, Vec<Suggestion>)>, n: int)
        requires
            0 <= n <= entries.len(),
        ensures
            Self::count_upto(entries, n) >= 0,
        decreases n,
    {
        if n > 0 {
            Self::lemma_count_bound(entries, n - 1);
        }
    }
}

} // verus!
