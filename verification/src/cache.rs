//! The artifacts produced so far in one compilation, by identity. An
//! identity is written once and read as often as needed.

use crate::model::{ArtifactEntry, ArtifactEntryView, Id, UnitArtifact, UnitArtifactView};
use vstd::prelude::*;

verus! {

/// Some entry of `cache` carries the identity `id`.
pub open spec fn holds(cache: Seq<ArtifactEntryView>, id: Id) -> bool {
    exists|i: int| 0 <= i < cache.len() && (#[trigger] cache[i]).identity == id
}

/// Where the first entry for `id` stands in `cache`, or `cache.len()` if there is none.
pub open spec fn slot(cache: Seq<ArtifactEntryView>, id: Id) -> int
    decreases cache.len(),
{
    if cache.len() == 0 {
        0
    } else {
        let before = slot(cache.drop_last(), id);
        if before < cache.len() - 1 {
            before
        } else if cache.last().identity == id {
            cache.len() - 1
        } else {
            cache.len() as int
        }
    }
}

/// The artifact that `cache` holds for `id`.
pub open spec fn lookup(cache: Seq<ArtifactEntryView>, id: Id) -> UnitArtifactView {
    cache[slot(cache, id)].artifact
}

/// The entries of `cache` for the identities of `wanted`, in the order of `wanted`.
pub open spec fn gathered(cache: Seq<ArtifactEntryView>, wanted: Seq<Id>) -> Seq<
    ArtifactEntryView,
> {
    Seq::new(
        wanted.len(),
        |k: int| ArtifactEntryView { identity: wanted[k], artifact: lookup(cache, wanted[k]) },
    )
}

/// `cache` holds an entry for every identity of `wanted`.
pub open spec fn holds_all(cache: Seq<ArtifactEntryView>, wanted: Seq<Id>) -> bool {
    forall|k: int| 0 <= k < wanted.len() ==> holds(cache, #[trigger] wanted[k])
}

/// No identity has two entries.
pub open spec fn written_once(cache: Seq<ArtifactEntryView>) -> bool {
    forall|i: int, j: int|
        0 <= i < cache.len() && 0 <= j < cache.len() && i != j ==> (#[trigger] cache[i]).identity
            != (#[trigger] cache[j]).identity
}

/// `slot` finds the first entry for an identity, or runs off the end.
pub proof fn lemma_slot(cache: Seq<ArtifactEntryView>, id: Id)
    ensures
        0 <= slot(cache, id) <= cache.len(),
        slot(cache, id) < cache.len() ==> cache[slot(cache, id)].identity == id,
        forall|j: int| 0 <= j < slot(cache, id) ==> (#[trigger] cache[j]).identity != id,
        slot(cache, id) < cache.len() <==> holds(cache, id),
    decreases cache.len(),
{
    if cache.len() > 0 {
        let h = cache.drop_last();
        lemma_slot(h, id);
        assert forall|j: int| 0 <= j < slot(cache, id) implies (#[trigger] cache[j]).identity
            != id by {
            if j < h.len() {
                assert(h[j] == cache[j]);
            }
        }
        if slot(cache, id) < cache.len() {
            let p = slot(cache, id);
            if p < h.len() {
                assert(h[p] == cache[p]);
            }
            assert(cache[p].identity == id);
        } else {
            assert forall|i: int| 0 <= i < cache.len() implies (#[trigger] cache[i]).identity
                != id by {
                if i < h.len() {
                    assert(h[i] == cache[i]);
                }
            }
        }
    }
}

/// An entry added at the end is found there if its identity is new, and
/// changes nothing for the other identities.
pub proof fn lemma_slot_push(cache: Seq<ArtifactEntryView>, entry: ArtifactEntryView, id: Id)
    ensures
        holds(cache.push(entry), id) == (holds(cache, id) || entry.identity == id),
        holds(cache, id) ==> lookup(cache.push(entry), id) == lookup(cache, id),
        !holds(cache, id) && entry.identity == id ==> lookup(cache.push(entry), id)
            == entry.artifact,
{
    let longer = cache.push(entry);
    assert(longer.drop_last() =~= cache);
    lemma_slot(cache, id);
    lemma_slot(longer, id);
    if holds(cache, id) {
        assert(longer[slot(cache, id)] == cache[slot(cache, id)]);
    }
    if entry.identity == id {
        assert(longer[longer.len() - 1].identity == id);
    }
}

/// The artifacts produced so far, in the order in which they were written.
pub struct CompilationCache {
    entries: Vec<ArtifactEntry>,
}

impl View for CompilationCache {
    type V = Seq<ArtifactEntryView>;

    closed spec fn view(&self) -> Seq<ArtifactEntryView> {
        self.entries.deep_view()
    }
}

impl CompilationCache {
    /// A cache that holds nothing.
    pub fn new() -> (r: Self)
        ensures
            r@ == Seq::<ArtifactEntryView>::empty(),
            written_once(r@),
    {
        let r = CompilationCache { entries: Vec::new() };
        assert(r@ =~= Seq::empty());
        r
    }

    /// How many artifacts the cache holds.
    pub fn len(&self) -> (n: usize)
        ensures
            n == self@.len(),
    {
        self.entries.len()
    }

    /// Where the entry for `id` stands, if there is one.
    pub fn find(&self, id: &String) -> (r: Option<usize>)
        ensures
            match r {
                Some(i) => i < self@.len() && i == slot(self@, id@),
                None => slot(self@, id@) == self@.len(),
            },
            r is Some == holds(self@, id@),
    {
        let n = self.entries.len();
        let mut i: usize = 0;
        while i < n
            invariant
                i <= n,
                n == self.entries.len(),
                forall|j: int| 0 <= j < i ==> (#[trigger] self@[j]).identity != id@,
            decreases n - i,
        {
            if self.entries[i].identity == *id {
                proof {
                    lemma_slot(self@, id@);
                    assert(self@[i as int].identity == id@);
                }
                return Some(i);
            }
            i += 1;
        }
        proof {
            lemma_slot(self@, id@);
        }
        None
    }

    /// Whether the cache holds an artifact for `id`.
    pub fn contains(&self, id: &String) -> (r: bool)
        ensures
            r == holds(self@, id@),
    {
        self.find(id).is_some()
    }

    /// The artifact the cache holds for `id`, if it holds one.
    pub fn get(&self, id: &String) -> (r: Option<&UnitArtifact>)
        ensures
            match r {
                Some(artifact) => holds(self@, id@) && artifact@ == lookup(self@, id@),
                None => !holds(self@, id@),
            },
    {
        match self.find(id) {
            Some(i) => Some(&self.entries[i].artifact),
            None => None,
        }
    }

    /// Writes the artifact of `id`, unless the cache holds one already: an
    /// identity is written once. Says whether it wrote.
    pub fn insert(&mut self, id: String, artifact: UnitArtifact) -> (wrote: bool)
        ensures
            wrote == !holds(old(self)@, id@),
            final(self)@ == if wrote {
                old(self)@.push(ArtifactEntryView { identity: id@, artifact: artifact@ })
            } else {
                old(self)@
            },
            written_once(old(self)@) ==> written_once(final(self)@),
    {
        if self.find(&id).is_some() {
            return false;
        }
        let ghost before = self@;
        let ghost entry = ArtifactEntryView { identity: id@, artifact: artifact@ };
        self.entries.push(ArtifactEntry { identity: id, artifact });
        proof {
            assert(self@ =~= before.push(entry));
            if written_once(before) {
                assert forall|i: int, j: int|
                    0 <= i < self@.len() && 0 <= j < self@.len() && i != j implies (
                #[trigger] self@[i]).identity != (#[trigger] self@[j]).identity by {
                    if i < before.len() {
                        assert(self@[i] == before[i]);
                    }
                    if j < before.len() {
                        assert(self@[j] == before[j]);
                    }
                }
            }
        }
        true
    }

    /// A copy of the entry of each identity of `wanted`, in the order of
    /// `wanted`, if the cache holds them all.
    pub fn gather(&self, wanted: &Vec<String>) -> (r: Option<Vec<ArtifactEntry>>)
        ensures
            match r {
                Some(entries) => holds_all(self@, wanted.deep_view()) && entries.deep_view()
                    == gathered(self@, wanted.deep_view()),
                None => !holds_all(self@, wanted.deep_view()),
            },
    {
        let n = wanted.len();
        let mut entries: Vec<ArtifactEntry> = Vec::new();
        let mut k: usize = 0;
        while k < n
            invariant
                k <= n,
                n == wanted.len(),
                entries@.len() == k,
                forall|j: int| 0 <= j < k ==> holds(self@, #[trigger] wanted.deep_view()[j]),
                forall|j: int|
                    0 <= j < k ==> (#[trigger] entries.deep_view()[j]) == gathered(
                        self@,
                        wanted.deep_view(),
                    )[j],
            decreases n - k,
        {
            let ghost so_far = entries.deep_view();
            match self.find(&wanted[k]) {
                Some(i) => {
                    let entry = ArtifactEntry {
                        identity: wanted[k].clone(),
                        artifact: self.entries[i].artifact.clone(),
                    };
                    entries.push(entry);
                    proof {
                        assert(self@[i as int] == self.entries@[i as int]@);
                        assert forall|j: int| 0 <= j < k + 1 implies (
                        #[trigger] entries.deep_view()[j]) == gathered(
                            self@,
                            wanted.deep_view(),
                        )[j] by {
                            if j < k {
                                assert(entries.deep_view()[j] == so_far[j]);
                            }
                        }
                    }
                },
                None => {
                    proof {
                        assert(!holds(self@, wanted.deep_view()[k as int]));
                    }
                    return None;
                },
            }
            k += 1;
        }
        proof {
            assert(entries.deep_view() =~= gathered(self@, wanted.deep_view()));
        }
        Some(entries)
    }

    /// Takes the entries out of the cache, in the order in which they were written.
    pub fn into_entries(self) -> (r: Vec<ArtifactEntry>)
        ensures
            r.deep_view() == self@,
    {
        self.entries
    }
}

} // verus!
