//! The address table: a bidirectional map between a peer's transport address
//! and a local peer id.  Ids are indices into an append-only list, so the
//! mapping is a bijection at any instant and id assignment is monotonic.

use vstd::prelude::*;

use crate::model::Peer;

verus! {

/// The table after learning one peer: unchanged when the peer is known,
/// else extended by it, under the next sequential id.
pub open spec fn table_after_set(s: Seq<Peer>, p: Peer) -> Seq<Peer> {
    if s.contains(p) {
        s
    } else {
        s.push(p)
    }
}

/// Peer address table of one transport.
pub struct AddrTable {
    peers: Vec<Peer>,
}

impl AddrTable {
    /// The peers known so far; a peer's local id is its index here.
    pub closed spec fn peers_seq(&self) -> Seq<Peer> {
        self.peers@
    }

    /// No peer appears under two ids.
    pub open spec fn wf(&self) -> bool {
        forall|i: int, j: int|
            0 <= i < j < self.peers_seq().len() ==> #[trigger] self.peers_seq()[i]
                != #[trigger] self.peers_seq()[j]
    }

    /// A fresh, empty table.
    pub fn new() -> (r: AddrTable)
        ensures
            r.wf(),
            r.peers_seq() == Seq::<Peer>::empty(),
    {
        AddrTable { peers: Vec::new() }
    }

    /// Find the index of a peer.
    fn index_of(&self, peer: &Peer) -> (r: Option<usize>)
        ensures
            r matches Some(k) ==> 0 <= k < self.peers_seq().len() && self.peers_seq()[k as int]
                == *peer,
            r is None ==> !self.peers_seq().contains(*peer),
    {
        let mut i: usize = 0;
        while i < self.peers.len()
            invariant
                i <= self.peers@.len(),
                forall|j: int| 0 <= j < i ==> self.peers@[j] != *peer,
            decreases self.peers@.len() - i,
        {
            if self.peers[i] == *peer {
                return Some(i);
            }
            i = i + 1;
        }
        proof {
            assert(!self.peers@.contains(*peer));
        }
        None
    }

    /// Learn a peer: assign the next sequential local id to it if it is
    /// unknown; a known peer leaves the table unchanged.
    pub fn set(&mut self, peer: Peer)
        requires
            old(self).wf(),
            old(self).peers_seq().len() < usize::MAX,
        ensures
            final(self).wf(),
            final(self).peers_seq() == table_after_set(old(self).peers_seq(), peer),
    {
        let known = self.index_of(&peer);
        match known {
            Some(_) => {
                proof {
                    assert(self.peers_seq().contains(peer));
                }
            }
            None => {
                self.peers.push(peer);
            }
        }
    }

    /// Look a peer's local id up.
    pub fn id(&self, peer: &Peer) -> (r: Option<usize>)
        requires
            self.wf(),
        ensures
            r matches Some(k) ==> 0 <= k < self.peers_seq().len() && self.peers_seq()[k as int]
                == *peer,
            r is None <==> !self.peers_seq().contains(*peer),
    {
        let r = self.index_of(peer);
        proof {
            if r matches Some(k) {
                assert(self.peers_seq().contains(*peer));
            }
        }
        r
    }

    /// Look the peer behind a local id up.
    pub fn peer(&self, id: usize) -> (r: Option<Peer>)
        ensures
            id < self.peers_seq().len() ==> r == Some(self.peers_seq()[id as int]),
            id >= self.peers_seq().len() ==> r is None,
    {
        if id < self.peers.len() {
            Some(self.peers[id])
        } else {
            None
        }
    }

    /// Every known peer, in id order.
    pub fn all(&self) -> (r: Vec<Peer>)
        ensures
            r@ == self.peers_seq(),
    {
        let mut out: Vec<Peer> = Vec::new();
        let mut i: usize = 0;
        while i < self.peers.len()
            invariant
                i <= self.peers@.len(),
                out@ == self.peers@.subrange(0, i as int),
            decreases self.peers@.len() - i,
        {
            out.push(self.peers[i]);
            i = i + 1;
            proof {
                assert(out@ =~= self.peers@.subrange(0, i as int));
            }
        }
        proof {
            assert(self.peers@.subrange(0, self.peers@.len() as int) =~= self.peers@);
        }
        out
    }
}

/// Law: after learning a peer the table knows it, and learning it again
/// changes nothing, so its id stays what it was.
pub proof fn lemma_table_set_idempotent(s: Seq<Peer>, p: Peer)
    ensures
        table_after_set(s, p).contains(p),
        table_after_set(table_after_set(s, p), p) == table_after_set(s, p),
{
    if !s.contains(p) {
        assert(s.push(p)[s.len() as int] == p);
    }
}

} // verus!
