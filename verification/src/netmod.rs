//! The UDP netmod's verified half: the per-peer address table and the
//! inbox, and the decision the receive loop takes for one datagram.  The
//! socket itself, the multicast group and the waking of pending readers
//! stay outside; they hand datagrams in and carry envelopes out as plain
//! bytes.

use vstd::prelude::*;

use crate::codec::{
    decode_envelope, env_bytes, frame_feq, prefix_at, wf_env, wf_frame, Envelope,
};
use crate::model::{Frame, Peer};
use crate::table::{table_after_set, AddrTable};

verus! {

/// Where an inbound frame came from, as the router sees it.
#[derive(Clone, Copy, PartialEq, Eq, Structural, Debug)]
pub enum Target {
    /// The peer with this local id.
    Single(usize),
    /// Delivered by flood.
    Flood,
}

/// A frame together with its arrival target.
#[derive(Clone, Debug)]
pub struct FrameExt {
    pub frame: Frame,
    pub target: Target,
}

/// The netmod state shared between the receive loop and the dispatcher:
/// the address table and the inbox of decoded frames.
pub struct SocketState {
    table: AddrTable,
    inbox: Vec<FrameExt>,
}

impl SocketState {
    /// The known peers, by local id.
    pub closed spec fn peers(&self) -> Seq<Peer> {
        self.table.peers_seq()
    }

    /// The decoded frames waiting for the router, oldest first.
    pub closed spec fn inbox_seq(&self) -> Seq<FrameExt> {
        self.inbox@
    }

    /// The table is a bijection and every queued frame is well formed.
    pub closed spec fn wf(&self) -> bool {
        &&& self.table.wf()
        &&& forall|i: int|
            0 <= i < self.inbox@.len() ==> wf_frame((#[trigger] self.inbox@[i]).frame)
    }

    /// A fresh netmod state: no peers, an empty inbox.
    pub fn new() -> (r: SocketState)
        ensures
            r.wf(),
            r.peers() == Seq::<Peer>::empty(),
            r.inbox_seq() == Seq::<FrameExt>::empty(),
    {
        SocketState { table: AddrTable::new(), inbox: Vec::new() }
    }

    /// Every known peer, in id order.
    pub fn all_peers(&self) -> (r: Vec<Peer>)
        ensures
            r@ == self.peers(),
    {
        self.table.all()
    }

    /// The peer behind a local id.
    pub fn peer_of(&self, id: usize) -> (r: Option<Peer>)
        ensures
            id < self.peers().len() ==> r == Some(self.peers()[id as int]),
            id >= self.peers().len() ==> r is None,
    {
        self.table.peer(id)
    }

    /// Handle one received datagram from `peer`.  An announce teaches the
    /// table the peer and asks for a reply on the multicast group; a reply
    /// teaches the table; a data envelope from a known peer queues its
    /// frame; anything else is dropped.  The result says whether to send a
    /// reply envelope.
    pub fn incoming(&mut self, datagram: &Vec<u8>, peer: Peer) -> (r: bool)
        requires
            old(self).wf(),
            old(self).peers().len() < usize::MAX,
            old(self).inbox_seq().len() < usize::MAX,
        ensures
            final(self).wf(),
            forall|e: Envelope|
                wf_env(e) && #[trigger] prefix_at(datagram@, 0, env_bytes(e)) ==> match e {
                    Envelope::Announce => final(self).peers() == table_after_set(
                        old(self).peers(),
                        peer,
                    ) && final(self).inbox_seq() == old(self).inbox_seq() && r,
                    Envelope::Reply => final(self).peers() == table_after_set(
                        old(self).peers(),
                        peer,
                    ) && final(self).inbox_seq() == old(self).inbox_seq() && !r,
                    Envelope::Data(f) => final(self).peers() == old(self).peers() && !r && (
                    if old(self).peers().contains(peer) {
                        &&& final(self).inbox_seq().len() == old(self).inbox_seq().len() + 1
                        &&& final(self).inbox_seq() == old(self).inbox_seq().push(
                            final(self).inbox_seq().last(),
                        )
                        &&& frame_feq(final(self).inbox_seq().last().frame, f)
                        &&& (final(self).inbox_seq().last().target matches Target::Single(k)
                            && 0 <= k < old(self).peers().len() && old(self).peers()[k as int]
                            == peer)
                    } else {
                        final(self).inbox_seq() == old(self).inbox_seq()
                    }),
                },
            (!exists|e: Envelope| wf_env(e) && #[trigger] prefix_at(datagram@, 0, env_bytes(e)))
                ==> final(self).peers() == old(self).peers() && final(self).inbox_seq() == old(self).inbox_seq() && !r,
    {
        let dec = decode_envelope(datagram, 0);
        match dec {
            None => false,
            Some((env, j)) => {
                proof {
                    assert(datagram@.subrange(0, j as int) == env_bytes(env));
                    assert(prefix_at(datagram@, 0, env_bytes(env)));
                }
                match env {
                    Envelope::Announce => {
                        self.table.set(peer);
                        true
                    }
                    Envelope::Reply => {
                        self.table.set(peer);
                        false
                    }
                    Envelope::Data(f) => {
                        let known = self.table.id(&peer);
                        match known {
                            Some(k) => {
                                self.inbox.push(FrameExt { frame: f, target: Target::Single(k) });
                            }
                            None => {}
                        }
                        false
                    }
                }
            }
        }
    }

    /// Take the oldest queued frame out of the inbox.
    pub fn next_frame(&mut self) -> (r: Option<FrameExt>)
        requires
            old(self).wf(),
        ensures
            final(self).wf(),
            final(self).peers() == old(self).peers(),
            old(self).inbox_seq().len() == 0 ==> r is None && final(self).inbox_seq() == old(self).inbox_seq(),
            old(self).inbox_seq().len() > 0 ==> r == Some(old(self).inbox_seq()[0]) && final(self).inbox_seq() == old(self).inbox_seq().skip(1) && wf_frame(
                old(self).inbox_seq()[0].frame,
            ),
    {
        if self.inbox.len() == 0 {
            None
        } else {
            let fe = self.inbox.remove(0);
            proof {
                assert(self.inbox@ =~= old(self).inbox@.skip(1));
            }
            Some(fe)
        }
    }
}

} // verus!
