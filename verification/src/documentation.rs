//! The documentation under analysis: checkable chunks of virtual text,
//! grouped by origin.

use vstd::prelude::*;
use crate::literalset::ConsecutiveLiteralSet;
use crate::suggestion::{ContentOrigin, same_origin};

verus! {

/// One checkable unit of virtual text, backed by a consecutive literal set.
/// The virtual text is cached at construction.
#[derive(Debug)]
pub struct CheckableChunk {
    /// The backing literal set; its mapping anchors results to the source.
    pub set: ConsecutiveLiteralSet,
    /// The cached virtual text of `set`.
    pub text: Vec<u8>,
}

impl CheckableChunk {
    /// The cached text really is the set's virtual text.
    pub open spec fn wf(self) -> bool {
        &&& self.set.wf()
        &&& self.set.vt_structure(self.text@)
    }

    /// Build a chunk from its literal set, caching the virtual text.
    pub fn from_set(set: ConsecutiveLiteralSet) -> (r: Self)
        requires
            set.wf(),
        ensures
            r.wf(),
            r.set == set,
    {
        let text: Vec<u8> = set.virtual_text();
        Self { set, text }
    }

    /// The chunk's virtual text.
    pub fn as_str(&self) -> (r: &Vec<u8>)
        ensures
            r@ == self.text@,
    {
        &self.text
    }

    /// Length of the virtual text in bytes.
    pub fn len(&self) -> (r: usize)
        ensures
            r == self.text@.len(),
    {
        self.text.len()
    }
}

/// Checkable chunks grouped by origin, in insertion order.
#[derive(Debug)]
pub struct Documentation {
    /// Per-origin chunk lists.
    pub entries: Vec<(ContentOrigin, Vec<CheckableChunk>)>,
}

impl Documentation {
    /// All chunks are well formed.
    pub open spec fn wf(self) -> bool {
        forall|i: int, j: int|
            0 <= i < self.entries@.len() && 0 <= j < (#[trigger] self.entries@[i]).1@.len()
                ==> (#[trigger] self.entries@[i].1@[j]).wf()
    }

    /// An empty document collection.
    pub fn new() -> (r: Self)
        ensures
            r.wf(),
            r.entries@.len() == 0,
    {
        Self { entries: Vec::new() }
    }

    /// Number of origins.
    pub fn entry_count(&self) -> (r: usize)
        ensures
            r == self.entries@.len(),
    {
        self.entries.len()
    }

    /// File a chunk under its origin: extends the first entry with that
    /// origin when one is present, otherwise starts a new entry at the end.
    pub fn add(&mut self, origin: ContentOrigin, chunk: CheckableChunk)
        requires
            old(self).wf(),
            chunk.wf(),
        ensures
            final(self).wf(),
            (exists|i: int|
                0 <= i < old(self).entries@.len() && same_origin(
                    (#[trigger] old(self).entries@[i]).0,
                    origin,
                )) ==> exists|fi: int|
                #![auto]
                0 <= fi < old(self).entries@.len() && same_origin(
                    old(self).entries@[fi].0,
                    origin,
                ) && (forall|j: int|
                    0 <= j < fi ==> !same_origin((#[trigger] old(self).entries@[j]).0, origin))
                    && final(self).entries@.len() == old(self).entries@.len() && final(self).entries@[fi].0 == old(self).entries@[fi].0 && final(self).entries@[fi].1@
                    == old(self).entries@[fi].1@.push(chunk) && (forall|j: int|
                    0 <= j < old(self).entries@.len() && j != fi ==> final(self).entries@[j]
                        == #[trigger] old(self).entries@[j]),
            (!exists|i: int|
                0 <= i < old(self).entries@.len() && same_origin(
                    (#[trigger] old(self).entries@[i]).0,
                    origin,
                )) ==> final(self).entries@.len() == old(self).entries@.len() + 1 && (forall|
                j: int,
            |
                0 <= j < old(self).entries@.len() ==> final(self).entries@[j] == old(self).entries@[j]) && same_origin(
                final(self).entries@[old(self).entries@.len() as int].0,
                origin,
            ) && final(self).entries@[old(self).entries@.len() as int].1@ =~= seq![chunk],
    {
        let n: usize = self.entries.len();
        let mut i: usize = 0;
        while i < n
            invariant
                i <= n,
                n == self.entries@.len(),
                *self == *old(self),
                old(self).wf(),
                chunk.wf(),
                forall|j: int|
                    0 <= j < i ==> !same_origin((#[trigger] self.entries@[j]).0, origin),
            decreases n - i,
        {
            let hit: bool = self.entries[i].0.same(&origin);
            if hit {
                let ghost fi = i as int;
                let entry: &mut (ContentOrigin, Vec<CheckableChunk>) = &mut self.entries[i];
                entry.1.push(chunk);
                proof {
                    assert(forall|j: int|
                        0 <= j < self.entries@.len() && j != fi ==> self.entries@[j]
                            == #[trigger] old(self).entries@[j]);
                    assert(self.entries@[fi].1@ == old(self).entries@[fi].1@.push(chunk));
                    assert(self.entries@[fi].0 == old(self).entries@[fi].0);
                    assert(same_origin(old(self).entries@[fi].0, origin));
                }
                return ;
            }
            i = i + 1;
        }
        let mut chunks: Vec<CheckableChunk> = Vec::new();
        chunks.push(chunk);
        self.entries.push((origin, chunks));
        proof {
            assert(forall|j: int|
                0 <= j < old(self).entries@.len() ==> self.entries@[j] == #[trigger] old(self).entries@[j]);
        }
    }
}

} // verus!
