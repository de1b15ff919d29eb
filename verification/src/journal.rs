//! The journal: the set of frames this node has already observed, keyed by
//! sequence id and sequence number, used to deduplicate retransmitted
//! frames and to suppress reflood loops.

use vstd::prelude::*;

use crate::model::{Frame, Identity};

verus! {

/// Membership of a frame key in a vector of keys.
pub fn contains_key(v: &Vec<(Identity, u32)>, fid: &(Identity, u32)) -> (r: bool)
    ensures
        r == v@.contains(*fid),
{
    let mut i: usize = 0;
    while i < v.len()
        invariant
            i <= v@.len(),
            forall|j: int| 0 <= j < i ==> v@[j] != *fid,
        decreases v@.len() - i,
    {
        if v[i].0 == fid.0 && v[i].1 == fid.1 {
            proof {
                assert(v@[i as int] == *fid);
            }
            return true;
        }
        i = i + 1;
    }
    proof {
        assert(!v@.contains(*fid));
    }
    false
}

/// Remote frame journal: insertion-only within a process lifetime.
pub struct Journal {
    known: Vec<(Identity, u32)>,
}

impl Journal {
    /// The set of frame keys observed so far.
    pub closed spec fn seen(&self) -> Set<(Identity, u32)> {
        Set::new(|fid: (Identity, u32)| self.known@.contains(fid))
    }

    /// A fresh journal has seen nothing.
    pub fn new() -> (r: Journal)
        ensures
            r.seen() == Set::<(Identity, u32)>::empty(),
    {
        let r = Journal { known: Vec::new() };
        proof {
            assert(r.seen() =~= Set::<(Identity, u32)>::empty());
        }
        r
    }

    /// Record a frame key in the seen set.
    pub fn save(&mut self, fid: &(Identity, u32))
        ensures
            final(self).seen() == old(self).seen().insert(*fid),
    {
        if !contains_key(&self.known, fid) {
            self.known.push(*fid);
            proof {
                assert forall|x: (Identity, u32)| #[trigger]
                    self.known@.contains(x) == (old(self).known@.contains(x) || x == *fid) by {
                    if self.known@.contains(x) {
                        let j = choose|j: int| 0 <= j < self.known@.len() && self.known@[j] == x;
                        if j < old(self).known@.len() {
                            assert(old(self).known@[j] == x);
                        }
                    }
                    if old(self).known@.contains(x) {
                        let j = choose|j: int|
                            0 <= j < old(self).known@.len() && old(self).known@[j] == x;
                        assert(self.known@[j] == x);
                    }
                    if x == *fid {
                        assert(self.known@[self.known@.len() - 1] == x);
                    }
                }
                assert(self.seen() =~= old(self).seen().insert(*fid));
            }
        } else {
            proof {
                assert(self.seen() =~= old(self).seen().insert(*fid));
            }
        }
    }

    /// Record a frame's key in the seen set.
    pub fn queue(&mut self, frame: &Frame)
        ensures
            final(self).seen() == old(self).seen().insert((frame.seq.seqid, frame.seq.num)),
    {
        let fid = (frame.seq.seqid, frame.seq.num);
        self.save(&fid);
    }

    /// Whether a frame key has never been observed by this node.
    pub fn unknown(&self, fid: &(Identity, u32)) -> (r: bool)
        ensures
            r == !self.seen().contains(*fid),
    {
        !contains_key(&self.known, fid)
    }
}

/// Law: a frame key outside the seen set is unknown, and after a save the
/// seen set contains it, so it is unknown no longer.
pub proof fn lemma_journal_unknown_then_known(seen: Set<(Identity, u32)>, s: (Identity, u32))
    requires
        !seen.contains(s),
    ensures
        seen.insert(s).contains(s),
{
}

/// Law: the journal admits a frame exactly once; saving a frame key a
/// second time leaves the seen set as it was.
pub proof fn lemma_journal_save_idempotent(seen: Set<(Identity, u32)>, s: (Identity, u32))
    ensures
        seen.insert(s).insert(s) == seen.insert(s),
{
    assert(seen.insert(s).insert(s) =~= seen.insert(s));
}

} // verus!
