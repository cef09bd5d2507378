//! The quota on the bytes of all snapshots, and the eviction of idle
//! snapshots that brings the bytes back under it.
use vstd::prelude::*;
use crate::key::SnapKey;

verus! {

/// An idle snapshot that may be evicted, with the time at which its metadata
/// file was last modified.
#[derive(Clone, Copy, PartialEq, Eq, Debug, Structural)]
pub struct Candidate {
    pub key: SnapKey,
    pub modified: u64,
}

/// What to do next when a snapshot is to be built.
#[derive(Clone, Copy, PartialEq, Eq, Debug, Structural)]
pub enum EvictStep {
    /// The bytes are within the quota: go on and build.
    Proceed,
    /// The bytes are beyond the quota: list the snapshots that may be evicted.
    ListCandidates,
    /// The bytes are beyond the quota: delete this snapshot, then measure again.
    Evict(SnapKey),
    /// The bytes are beyond the quota and nothing is left to evict.
    TooManySnapshots,
}

/// The eviction in progress: the snapshots that may still be evicted, once
/// they were listed.
#[derive(Debug)]
pub struct Eviction {
    candidates: Option<Vec<Candidate>>,
}

/// Whether `i` is the place of the candidate to evict first: none was
/// modified earlier, and of those modified at the same time it is the last.
pub open spec fn is_oldest(c: Seq<Candidate>, i: int) -> bool {
    &&& 0 <= i < c.len()
    &&& forall|j: int| 0 <= j < c.len() ==> c[i].modified <= (#[trigger] c[j]).modified
    &&& forall|j: int| i < j < c.len() ==> c[i].modified < (#[trigger] c[j]).modified
}

impl View for Eviction {
    type V = Option<Seq<Candidate>>;

    closed spec fn view(&self) -> Option<Seq<Candidate>> {
        match self.candidates {
            Some(v) => Some(v@),
            None => None,
        }
    }
}

impl Eviction {
    /// An eviction for which the candidates are not listed yet.
    pub fn new() -> (e: Eviction)
        ensures
            e@ is None,
    {
        Eviction { candidates: None }
    }

    /// Takes the list of the snapshots that may be evicted.
    pub fn set_candidates(&mut self, candidates: Vec<Candidate>)
        ensures
            final(self)@ == Some(candidates@),
    {
        self.candidates = Some(candidates);
    }

    /// Says what to do when the snapshots hold `total` bytes and the quota is
    /// `max` bytes. Within the quota the build goes on. Beyond it the
    /// candidates are listed, once; then the candidate that was modified least
    /// recently is evicted, one at each step; when none is left, there are too
    /// many snapshots.
    pub fn next(&mut self, total: u64, max: u64) -> (step: EvictStep)
        ensures
            total <= max ==> step == EvictStep::Proceed && final(self)@ == old(self)@,
            total > max ==> match old(self)@ {
                None => step == EvictStep::ListCandidates && final(self)@ == old(self)@,
                Some(c) => if c.len() == 0 {
                    step == EvictStep::TooManySnapshots && final(self)@ == old(self)@
                } else {
                    exists|i: int|
                        is_oldest(c, i) && step == EvictStep::Evict(c[i].key) && final(self)@
                            == Some(c.remove(i))
                },
            },
    {
        if total <= max {
            return EvictStep::Proceed;
        }
        match &mut self.candidates {
            None => EvictStep::ListCandidates,
            Some(list) => {
                if list.len() == 0 {
                    return EvictStep::TooManySnapshots;
                }
                let ghost c = list@;
                let mut best: usize = 0;
                let mut j: usize = 1;
                while j < list.len()
                    invariant
                        1 <= j <= list@.len(),
                        list@ == c,
                        best < j,
                        forall|t: int| 0 <= t < j ==> c[best as int].modified <= (#[trigger] c[t]).modified,
                        forall|t: int|
                            best < t < j ==> c[best as int].modified < (#[trigger] c[t]).modified,
                    decreases list@.len() - j,
                {
                    if list[j].modified <= list[best].modified {
                        best = j;
                    }
                    j += 1;
                }
                assert(is_oldest(c, best as int));
                let chosen = list.remove(best);
                EvictStep::Evict(chosen.key)
            },
        }
    }
}

/// The candidate that is evicted first is unique.
pub proof fn lemma_oldest_unique(c: Seq<Candidate>, i: int, j: int)
    requires
        is_oldest(c, i),
        is_oldest(c, j),
    ensures
        i == j,
{
    if i < j {
        assert(c[i].modified < c[j].modified);
        assert(c[j].modified <= c[i].modified);
    } else if j < i {
        assert(c[j].modified < c[i].modified);
        assert(c[i].modified <= c[j].modified);
    }
}

} // verus!
