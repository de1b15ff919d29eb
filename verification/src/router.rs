//! The router core: slicing and dispatch on send, journal check, reflood
//! decision and collector hand-off on intake, and the delivery queue that
//! surfaces reassembled messages to the IPC layer.

use vstd::prelude::*;

use crate::codec::{encode_payload, payload_bytes, wf_frame, wf_payload};
use crate::collector::{buf_complete, buf_insert, CollectOutcome, Collector};
use crate::journal::Journal;
use crate::model::{Frame, Identity, Message, Payload, Peer, RatmanError, Recipient, TimeSig};
use crate::slicer::{chain_wf, concat_payloads, slice_frames};

verus! {

/// The serialised inner payload a message travels as.
pub open spec fn msg_payload_bytes(m: Message) -> Seq<u8> {
    payload_bytes(Payload { payload: m.payload, timesig: m.timesig, sign: m.sign })
}

/// What the router decided about one incoming frame.
pub struct IntakeOutcome {
    /// The frame's sequence id was already journalled; the frame was dropped.
    pub duplicate: bool,
    /// The frame is a flood frame first seen now: re-emit it to every other
    /// known peer.
    pub reflood: bool,
    /// A message completed and was appended to the delivery queue.
    pub delivered: bool,
}

/// The router: locally hosted addresses, the routing table, the journal,
/// the collector, and the queue of delivered messages.
pub struct Router {
    locals: Vec<(Identity, bool)>,
    routes: Vec<(Identity, Peer)>,
    journal: Journal,
    collector: Collector,
    delivery: Vec<Message>,
}

impl Router {
    /// The locally hosted addresses with their online flags.
    pub closed spec fn locals_seq(&self) -> Seq<(Identity, bool)> {
        self.locals@
    }

    /// The routing entries.
    pub closed spec fn routes_seq(&self) -> Seq<(Identity, Peer)> {
        self.routes@
    }

    /// The journal's seen set of frame keys.
    pub closed spec fn seen(&self) -> Set<(Identity, u32)> {
        self.journal.seen()
    }

    /// The delivery queue of reassembled messages.
    pub closed spec fn delivery_seq(&self) -> Seq<Message> {
        self.delivery@
    }

    /// A collector worker for this sequence id is in flight.
    pub closed spec fn col_has(&self, id: Identity) -> bool {
        self.collector.has_worker(id)
    }

    /// The frames collected so far for this sequence id.
    pub closed spec fn col_buf(&self, id: Identity) -> Seq<Frame> {
        self.collector.buf_of(id)
    }

    /// This identity is hosted on this node.
    pub open spec fn is_local(&self, id: Identity) -> bool {
        exists|i: int|
            0 <= i < self.locals_seq().len() && (#[trigger] self.locals_seq()[i]).0 == id
    }

    /// This identity is hosted here and online.
    pub open spec fn is_online(&self, id: Identity) -> bool {
        exists|i: int|
            0 <= i < self.locals_seq().len() && (#[trigger] self.locals_seq()[i]).0 == id
                && self.locals_seq()[i].1
    }

    /// The peer a destination identity routes to.
    pub open spec fn route_of(&self, id: Identity) -> Option<Peer> {
        route_in(self.routes_seq(), id)
    }

    /// Hosted addresses and routing entries are keyed uniquely, and the
    /// collector is well formed.
    pub closed spec fn wf(&self) -> bool {
        &&& forall|i: int, j: int|
            0 <= i < j < self.locals@.len() ==> (#[trigger] self.locals@[i]).0 != (
            #[trigger] self.locals@[j]).0
        &&& forall|i: int, j: int|
            0 <= i < j < self.routes@.len() ==> (#[trigger] self.routes@[i]).0 != (
            #[trigger] self.routes@[j]).0
        &&& self.collector.wf()
    }

    /// A fresh router: nothing hosted, no routes, nothing seen or queued.
    pub fn new() -> (r: Router)
        ensures
            r.wf(),
            r.locals_seq() == Seq::<(Identity, bool)>::empty(),
            r.routes_seq() == Seq::<(Identity, Peer)>::empty(),
            r.seen() == Set::<(Identity, u32)>::empty(),
            r.delivery_seq() == Seq::<Message>::empty(),
            forall|id: Identity| !(#[trigger] r.col_has(id)),
    {
        Router {
            locals: Vec::new(),
            routes: Vec::new(),
            journal: Journal::new(),
            collector: Collector::new(),
            delivery: Vec::new(),
        }
    }

    /// Find a hosted address.
    fn find_local(&self, id: &Identity) -> (r: Option<usize>)
        ensures
            r matches Some(i) ==> 0 <= i < self.locals@.len() && self.locals@[i as int].0 == *id,
            r is None ==> !self.is_local(*id),
    {
        let mut i: usize = 0;
        while i < self.locals.len()
            invariant
                i <= self.locals@.len(),
                forall|j: int| 0 <= j < i ==> (#[trigger] self.locals@[j]).0 != *id,
            decreases self.locals@.len() - i,
        {
            if self.locals[i].0 == *id {
                return Some(i);
            }
            i = i + 1;
        }
        proof {
            if self.is_local(*id) {
                let k = choose|k: int|
                    0 <= k < self.locals@.len() && (#[trigger] self.locals@[k]).0 == *id;
            }
        }
        None
    }

    /// Whether an identity is hosted on this node.
    pub fn hosts(&self, id: &Identity) -> (r: bool)
        ensures
            r == self.is_local(*id),
    {
        let found = self.find_local(id);
        match found {
            Some(i) => {
                proof {
                    assert(self.locals_seq()[i as int].0 == *id);
                }
                true
            }
            None => false,
        }
    }

    /// Host a new local address.  A known address is refused.
    pub fn add_user(&mut self, id: Identity) -> (r: Result<(), RatmanError>)
        requires
            old(self).wf(),
            old(self).locals_seq().len() < usize::MAX,
        ensures
            final(self).wf(),
            old(self).is_local(id) ==> r == Err::<(), RatmanError>(RatmanError::DuplicateUser)
                && final(self).locals_seq() == old(self).locals_seq(),
            !old(self).is_local(id) ==> r == Ok::<(), RatmanError>(()) && final(self).locals_seq()
                == old(self).locals_seq().push((id, false)),
            final(self).routes_seq() == old(self).routes_seq(),
            final(self).seen() == old(self).seen(),
            final(self).delivery_seq() == old(self).delivery_seq(),
    {
        let found = self.find_local(&id);
        match found {
            Some(_) => {
                proof {
                    assert(self.is_local(id));
                }
                Err(RatmanError::DuplicateUser)
            }
            None => {
                self.locals.push((id, false));
                proof {
                    assert forall|i: int, j: int|
                        0 <= i < j < self.locals@.len() implies (#[trigger] self.locals@[i]).0 != (
                    #[trigger] self.locals@[j]).0 by {
                        if j < self.locals@.len() - 1 {
                            assert(self.locals@[i] == old(self).locals@[i]);
                        } else {
                            assert(self.locals@[j] == (id, false));
                            assert(self.locals@[i] == old(self).locals@[i]);
                            if old(self).locals@[i].0 == id {
                                assert(old(self).is_local(id));
                            }
                        }
                    }
                }
                Ok(())
            }
        }
    }

    /// Bring a hosted address online.  An address never added is refused.
    #[verifier::rlimit(60)]
    pub fn online(&mut self, id: Identity) -> (r: Result<(), RatmanError>)
        requires
            old(self).wf(),
        ensures
            final(self).wf(),
            !old(self).is_local(id) ==> r == Err::<(), RatmanError>(RatmanError::UnknownUser)
                && final(self).locals_seq() == old(self).locals_seq(),
            old(self).is_local(id) ==> r == Ok::<(), RatmanError>(()) && final(self).is_online(id),
            old(self).is_local(id) ==> exists|i: int|
                0 <= i < old(self).locals_seq().len() && (#[trigger] old(self).locals_seq()[i]).0
                    == id && final(self).locals_seq() == old(self).locals_seq().update(
                    i,
                    (id, true),
                ),
            final(self).is_local(id) == old(self).is_local(id),
            forall|x: Identity|
                x != id ==> #[trigger] final(self).is_local(x) == old(self).is_local(x)
                    && final(self).is_online(x) == old(self).is_online(x),
            final(self).routes_seq() == old(self).routes_seq(),
            final(self).seen() == old(self).seen(),
            final(self).delivery_seq() == old(self).delivery_seq(),
    {
        let found = self.find_local(&id);
        let i = match found {
            None => {
                return Err(RatmanError::UnknownUser);
            }
            Some(i) => i,
        };
        {
            {
                self.locals.set(i, (id, true));
                proof {
                    assert(self.locals_seq() == old(self).locals_seq().update(
                        i as int,
                        (id, true),
                    ));
                    assert forall|i2: int, j2: int|
                        0 <= i2 < j2 < self.locals_seq().len() implies (
                    #[trigger] self.locals_seq()[i2]).0 != (#[trigger] self.locals_seq()[j2]).0 by {
                        assert(self.locals_seq()[i2].0 == old(self).locals_seq()[i2].0);
                        assert(self.locals_seq()[j2].0 == old(self).locals_seq()[j2].0);
                        assert((#[trigger] old(self).locals_seq()[i2]).0 != (
                        #[trigger] old(self).locals_seq()[j2]).0);
                    }
                    assert(self.is_online(id)) by {
                        assert(self.locals_seq()[i as int].0 == id
                            && self.locals_seq()[i as int].1);
                    }
                    assert(self.is_local(id)) by {
                        assert(self.locals_seq()[i as int].0 == id);
                    }
                    assert forall|x: Identity| x != id implies #[trigger] self.is_local(x) == old(self).is_local(x) && self.is_online(x) == old(self).is_online(x) by {
                        if self.is_local(x) {
                            let k = choose|k: int|
                                0 <= k < self.locals_seq().len() && (
                                #[trigger] self.locals_seq()[k]).0 == x;
                            assert(k != i);
                            assert(old(self).locals_seq()[k].0 == x);
                        }
                        if old(self).is_local(x) {
                            let k = choose|k: int|
                                0 <= k < old(self).locals_seq().len() && (
                                #[trigger] old(self).locals_seq()[k]).0 == x;
                            assert(k != i);
                            assert(self.locals_seq()[k].0 == x);
                        }
                        if self.is_online(x) {
                            let k = choose|k: int|
                                0 <= k < self.locals_seq().len() && (
                                #[trigger] self.locals_seq()[k]).0 == x && self.locals_seq()[k].1;
                            assert(k != i);
                            assert(old(self).locals_seq()[k] == self.locals_seq()[k]);
                        }
                        if old(self).is_online(x) {
                            let k = choose|k: int|
                                0 <= k < old(self).locals_seq().len() && (
                                #[trigger] old(self).locals_seq()[k]).0 == x && old(self).locals_seq()[k].1;
                            assert(k != i);
                            assert(self.locals_seq()[k] == old(self).locals_seq()[k]);
                        }
                    }
                    assert forall|x: Identity| x != id implies #[trigger] final(self).is_local(x)
                        == old(self).is_local(x) && final(self).is_online(x) == old(self).is_online(x) by {
                        assert(self.is_local(x) == old(self).is_local(x) && self.is_online(x)
                            == old(self).is_online(x));
                    }
                }
                Ok(())
            }
        }
    }

    /// Every hosted address, in the order added.
    pub fn known_addresses(&self) -> (r: Vec<Identity>)
        ensures
            r@.len() == self.locals_seq().len(),
            forall|i: int| 0 <= i < r@.len() ==> r@[i] == (#[trigger] self.locals_seq()[i]).0,
    {
        let mut out: Vec<Identity> = Vec::new();
        let mut i: usize = 0;
        while i < self.locals.len()
            invariant
                i <= self.locals@.len(),
                out@.len() == i,
                forall|j: int| 0 <= j < i ==> out@[j] == (#[trigger] self.locals@[j]).0,
            decreases self.locals@.len() - i,
        {
            out.push(self.locals[i].0);
            i = i + 1;
        }
        out
    }

    /// Enter or replace the route to a destination identity.
    pub fn add_route(&mut self, id: Identity, peer: Peer)
        requires
            old(self).wf(),
            old(self).routes_seq().len() < usize::MAX,
        ensures
            final(self).wf(),
            final(self).route_of(id) == Some(peer),
            forall|x: Identity|
                x != id ==> #[trigger] final(self).route_of(x) == old(self).route_of(x),
            final(self).locals_seq() == old(self).locals_seq(),
            final(self).seen() == old(self).seen(),
            final(self).delivery_seq() == old(self).delivery_seq(),
    {
        let mut i: usize = 0;
        let n = self.routes.len();
        while i < n
            invariant
                i <= n == self.routes@.len(),
                self == old(self),
                old(self).wf(),
                forall|j: int| 0 <= j < i ==> (#[trigger] self.routes@[j]).0 != id,
            decreases n - i,
        {
            if self.routes[i].0 == id {
                self.routes.set(i, (id, peer));
                proof {
                    let rs = self.routes_seq();
                    let os = old(self).routes_seq();
                    assert forall|i2: int, j2: int|
                        0 <= i2 < j2 < rs.len() implies (#[trigger] rs[i2]).0 != (
                    #[trigger] rs[j2]).0 by {
                        assert(rs[i2].0 == os[i2].0 && rs[j2].0 == os[j2].0);
                        assert((#[trigger] os[i2]).0 != (#[trigger] os[j2]).0);
                    }
                    lemma_route_lookup(rs, id, i as int);
                    assert forall|x: Identity| x != id implies #[trigger] route_in(rs, x)
                        == route_in(os, x) by {
                        lemma_route_frame(rs, os, x, i as int);
                    }
                    assert(self.route_of(id) == route_in(rs, id));
                    assert forall|x: Identity| x != id implies #[trigger] self.route_of(x) == old(self).route_of(x) by {
                        assert(route_in(rs, x) == route_in(os, x));
                        assert(self.route_of(x) == route_in(rs, x));
                        assert(old(self).route_of(x) == route_in(os, x));
                    }
                }
                return ;
            }
            i = i + 1;
        }
        self.routes.push((id, peer));
        proof {
            let rs = self.routes_seq();
            let os = old(self).routes_seq();
            assert forall|i2: int, j2: int|
                0 <= i2 < j2 < rs.len() implies (#[trigger] rs[i2]).0 != (
            #[trigger] rs[j2]).0 by {
                if j2 < rs.len() - 1 {
                    assert(rs[i2] == os[i2] && rs[j2] == os[j2]);
                    assert((#[trigger] os[i2]).0 != (#[trigger] os[j2]).0);
                } else {
                    assert(rs[j2] == (id, peer));
                    assert(rs[i2] == os[i2]);
                }
            }
            lemma_route_lookup(rs, id, rs.len() - 1);
            assert forall|x: Identity| x != id implies #[trigger] route_in(rs, x) == route_in(
                os,
                x,
            ) by {
                lemma_route_frame_push(rs, os, x);
            }
            assert(self.route_of(id) == route_in(rs, id));
            assert forall|x: Identity| x != id implies #[trigger] self.route_of(x) == old(self).route_of(x) by {
                assert(route_in(rs, x) == route_in(os, x));
                assert(self.route_of(x) == route_in(rs, x));
                assert(old(self).route_of(x) == route_in(os, x));
            }
        }
    }

    /// Look the route to a destination up.
    pub fn find_route(&self, id: &Identity) -> (r: Option<Peer>)
        requires
            self.wf(),
        ensures
            r == self.route_of(*id),
    {
        let mut i: usize = 0;
        while i < self.routes.len()
            invariant
                i <= self.routes@.len(),
                forall|j: int| 0 <= j < i ==> (#[trigger] self.routes@[j]).0 != *id,
                self.wf(),
            decreases self.routes@.len() - i,
        {
            if self.routes[i].0 == *id {
                proof {
                    lemma_route_lookup(self.routes@, *id, i as int);
                }
                return Some(self.routes[i].1);
            }
            i = i + 1;
        }
        proof {
            if exists|k: int|
                0 <= k < self.routes@.len() && (#[trigger] self.routes@[k]).0 == *id {
                let k = choose|k: int|
                    0 <= k < self.routes@.len() && (#[trigger] self.routes@[k]).0 == *id;
            }
        }
        None
    }
}

/// The journal keys of a frame chain: one per sequence number below `n`.
pub open spec fn chain_keys(seqid: Identity, n: int) -> Set<(Identity, u32)> {
    Set::new(|fid: (Identity, u32)| fid.0 == seqid && 0 <= fid.1 < n)
}

/// Both collector views are the same in two router states.
pub open spec fn col_unchanged(a: &Router, b: &Router) -> bool {
    &&& forall|id: Identity| #[trigger] b.col_has(id) == a.col_has(id)
    &&& forall|id: Identity| #[trigger] b.col_buf(id) == a.col_buf(id)
}

impl Router {
    /// Prepare one message for the wire: slice its serialised payload into
    /// a frame chain under the given fresh sequence id, record every frame
    /// of the chain in the journal, and decide the dispatch targets: the
    /// destination's route for unicast, every known peer for flood.  The
    /// chain is journalled even when no route is found, so echoes of a
    /// failed send are still dropped.
    pub fn send_prepared(
        &mut self,
        msg: &Message,
        seqid: Identity,
        cap: usize,
        flood_peers: &Vec<Peer>,
    ) -> (r: Result<(Vec<Frame>, Vec<Peer>), RatmanError>)
        requires
            old(self).wf(),
            1 <= cap,
            msg.payload@.len() + msg.sign@.len() + cap <= 0xFFFF_FF00,
        ensures
            final(self).wf(),
            exists|n: int| 1 <= n && final(self).seen() == old(self).seen().union(#[trigger] chain_keys(seqid, n)),
            r matches Ok(fp) ==> final(self).seen() == old(self).seen().union(
                chain_keys(seqid, fp.0@.len() as int),
            ),
            final(self).locals_seq() == old(self).locals_seq(),
            final(self).routes_seq() == old(self).routes_seq(),
            final(self).delivery_seq() == old(self).delivery_seq(),
            col_unchanged(old(self), final(self)),
            msg.recipient matches Recipient::User(dest) ==> (r is Ok <==> old(self).route_of(
                dest,
            ) is Some) && (r is Err ==> r == Err::<(Vec<Frame>, Vec<Peer>), RatmanError>(
                RatmanError::NoRoute,
            )),
            msg.recipient is Flood ==> r is Ok,
            r matches Ok(fp) ==> ({
                &&& chain_wf(fp.0@, msg.sender, msg.recipient, seqid)
                &&& concat_payloads(fp.0@) == msg_payload_bytes(*msg)
                &&& forall|j: int| 0 <= j < fp.0@.len() ==> wf_frame(#[trigger] fp.0@[j])
                &&& match msg.recipient {
                    Recipient::User(dest) => old(self).route_of(dest) matches Some(p) && fp.1@
                        == seq![p],
                    Recipient::Flood => fp.1@ == flood_peers@,
                }
            }),
    {
        let inner = Payload {
            payload: crate::slicer::copy_range(&msg.payload, 0, msg.payload.len()),
            timesig: msg.timesig,
            sign: crate::slicer::copy_range(&msg.sign, 0, msg.sign.len()),
        };
        proof {
            assert(inner.payload@ =~= msg.payload@);
            assert(inner.sign@ =~= msg.sign@);
            assert(wf_payload(inner));
            assert(payload_bytes(inner) == msg_payload_bytes(*msg));
            match msg.timesig.received {
                None => {}
                Some(_) => {}
            }
            assert(payload_bytes(inner).len() <= 25 + msg.payload@.len() + msg.sign@.len());
        }
        let enc = encode_payload(&inner);
        let frames = slice_frames(&msg.sender, &msg.recipient, &seqid, &enc, cap);
        // Record every frame of the chain in the journal before dispatch.
        let mut k: usize = 0;
        let n = frames.len();
        while k < n
            invariant
                k <= n == frames@.len(),
                1 <= n,
                chain_wf(frames@, msg.sender, msg.recipient, seqid),
                self.journal.seen() == old(self).seen().union(chain_keys(seqid, k as int)),
                self.locals@ == old(self).locals@,
                self.routes@ == old(self).routes@,
                self.collector == old(self).collector,
                self.delivery@ == old(self).delivery@,
                old(self).wf(),
                self.wf(),
            decreases n - k,
        {
            let fid = (seqid, frames[k].seq.num);
            proof {
                assert(frames@[k as int].seq.num == k);
            }
            self.journal.save(&fid);
            k = k + 1;
            proof {
                assert(self.journal.seen() =~= old(self).seen().union(chain_keys(
                    seqid,
                    k as int,
                )));
            }
        }
        proof {
            assert(self.seen() == old(self).seen().union(chain_keys(seqid, n as int)));
        }
        match &msg.recipient {
            Recipient::User(dest) => {
                let route = self.find_route(dest);
                match route {
                    Some(p) => {
                        let mut targets: Vec<Peer> = Vec::new();
                        targets.push(p);
                        proof {
                            assert(targets@ =~= seq![p]);
                        }
                        Ok((frames, targets))
                    }
                    None => Err(RatmanError::NoRoute),
                }
            }
            Recipient::Flood => {
                let mut targets: Vec<Peer> = Vec::new();
                let mut i: usize = 0;
                while i < flood_peers.len()
                    invariant
                        i <= flood_peers@.len(),
                        targets@ == flood_peers@.subrange(0, i as int),
                    decreases flood_peers@.len() - i,
                {
                    targets.push(flood_peers[i]);
                    i = i + 1;
                    proof {
                        assert(targets@ =~= flood_peers@.subrange(0, i as int));
                    }
                }
                proof {
                    assert(flood_peers@.subrange(0, flood_peers@.len() as int) =~= flood_peers@);
                }
                Ok((frames, targets))
            }
        }
    }

    /// Take one frame in from a transport.  A journalled sequence id is
    /// dropped; a first-seen id is journalled; a flood frame is marked for
    /// re-emission; a frame addressed here or flooded goes to the
    /// collector, and a completed message joins the delivery queue.
    pub fn intake(&mut self, frame: Frame, now: u64) -> (r: IntakeOutcome)
        requires
            old(self).wf(),
            wf_frame(frame),
        ensures
            final(self).wf(),
            final(self).locals_seq() == old(self).locals_seq(),
            final(self).routes_seq() == old(self).routes_seq(),
            r.duplicate == old(self).seen().contains((frame.seq.seqid, frame.seq.num)),
            r.duplicate ==> final(self).seen() == old(self).seen() && final(self).delivery_seq()
                == old(self).delivery_seq() && col_unchanged(old(self), final(self))
                && !r.delivered && !r.reflood,
            !r.duplicate ==> final(self).seen() == old(self).seen().insert(
                (frame.seq.seqid, frame.seq.num),
            ),
            r.reflood == (!r.duplicate && frame.recipient is Flood),
            (!r.duplicate && !(frame.recipient is Flood || (frame.recipient
                matches Recipient::User(u) && old(self).is_local(u)))) ==> final(self).delivery_seq() == old(self).delivery_seq() && col_unchanged(old(self), final(self))
                && !r.delivered,
            (!r.duplicate && (frame.recipient is Flood || (frame.recipient
                matches Recipient::User(u) && old(self).is_local(u)))) ==> ({
                let sid = frame.seq.seqid;
                let nb = buf_insert(old(self).col_buf(sid), frame);
                &&& (!buf_complete(nb) ==> !r.delivered && final(self).col_has(sid) && final(self).col_buf(sid) == nb && final(self).delivery_seq() == old(self).delivery_seq())
                &&& (buf_complete(nb) ==> !final(self).col_has(sid))
                &&& (forall|id: Identity|
                    id != sid ==> #[trigger] final(self).col_has(id) == old(self).col_has(id)
                        && final(self).col_buf(id) == old(self).col_buf(id))
                &&& (!r.delivered ==> final(self).delivery_seq() == old(self).delivery_seq())
                &&& (r.delivered ==> final(self).delivery_seq().len() == old(self).delivery_seq().len() + 1 && final(self).delivery_seq() == old(self).delivery_seq().push(final(self).delivery_seq().last()) && ({
                    let m = final(self).delivery_seq().last();
                    &&& m.id == sid
                    &&& m.sender == nb[0].sender
                    &&& m.recipient == nb[0].recipient
                    &&& m.timesig.received == Some(now)
                    &&& exists|p: Payload|
                        #[trigger] payload_bytes(p) == concat_payloads(nb) && wf_payload(p)
                            && m.payload@ == p.payload@ && m.sign@ == p.sign@ && m.timesig.sent
                            == p.timesig.sent
                }))
                &&& (forall|p: Payload|
                    (buf_complete(nb) && wf_payload(p) && #[trigger] payload_bytes(p)
                        == concat_payloads(nb) && concat_payloads(nb).len() <= usize::MAX) ==> (
                    r.delivered && ({
                        let m = final(self).delivery_seq().last();
                        m.payload@ == p.payload@ && m.sign@ == p.sign@ && m.timesig.sent
                            == p.timesig.sent
                    })))
            }),
    {
        let sid = frame.seq.seqid;
        let fid = (sid, frame.seq.num);
        if !self.journal.unknown(&fid) {
            return IntakeOutcome { duplicate: true, reflood: false, delivered: false };
        }
        self.journal.save(&fid);
        let is_flood = match &frame.recipient {
            Recipient::Flood => true,
            Recipient::User(_) => false,
        };
        let local_dest = match &frame.recipient {
            Recipient::User(u) => {
                let f = self.find_local(u);
                match f {
                    Some(idx) => {
                        proof {
                            assert(self.locals_seq()[idx as int].0 == *u);
                            assert(self.is_local(*u));
                            assert(old(self).locals_seq()[idx as int].0 == *u);
                            assert(old(self).is_local(*u));
                        }
                        true
                    }
                    None => {
                        proof {
                            if old(self).is_local(*u) {
                                let k = choose|k: int|
                                    0 <= k < old(self).locals_seq().len() && (
                                    #[trigger] old(self).locals_seq()[k]).0 == *u;
                                assert(self.locals_seq()[k].0 == *u);
                                assert(self.is_local(*u));
                            }
                        }
                        false
                    }
                }
            }
            Recipient::Flood => false,
        };
        if is_flood || local_dest {
            let outcome = self.collector.ingest(frame, now);
            match outcome {
                CollectOutcome::Complete(m) => {
                    self.delivery.push(m);
                    IntakeOutcome { duplicate: false, reflood: is_flood, delivered: true }
                }
                CollectOutcome::Incomplete => {
                    IntakeOutcome { duplicate: false, reflood: is_flood, delivered: false }
                }
                CollectOutcome::Failed => {
                    IntakeOutcome { duplicate: false, reflood: is_flood, delivered: false }
                }
            }
        } else {
            IntakeOutcome { duplicate: false, reflood: is_flood, delivered: false }
        }
    }

    /// Surface the next reassembled message, in completion order.
    pub fn next(&mut self) -> (r: Option<Message>)
        requires
            old(self).wf(),
        ensures
            final(self).wf(),
            final(self).locals_seq() == old(self).locals_seq(),
            final(self).routes_seq() == old(self).routes_seq(),
            final(self).seen() == old(self).seen(),
            col_unchanged(old(self), final(self)),
            old(self).delivery_seq().len() == 0 ==> r is None && final(self).delivery_seq() == old(self).delivery_seq(),
            old(self).delivery_seq().len() > 0 ==> r == Some(old(self).delivery_seq()[0]) && final(self).delivery_seq() == old(self).delivery_seq().skip(1),
    {
        if self.delivery.len() == 0 {
            None
        } else {
            let m = self.delivery.remove(0);
            proof {
                assert(self.delivery@ =~= old(self).delivery@.skip(1));
            }
            Some(m)
        }
    }
}

/// The route a list of entries gives an identity.
pub open spec fn route_in(rs: Seq<(Identity, Peer)>, id: Identity) -> Option<Peer> {
    if exists|i: int| 0 <= i < rs.len() && (#[trigger] rs[i]).0 == id {
        let i = choose|i: int| 0 <= i < rs.len() && (#[trigger] rs[i]).0 == id;
        Some(rs[i].1)
    } else {
        None
    }
}

/// With unique keys, the route is the entry at the key's index.
proof fn lemma_route_lookup(rs: Seq<(Identity, Peer)>, id: Identity, i: int)
    requires
        forall|a: int, b: int| 0 <= a < b < rs.len() ==> (#[trigger] rs[a]).0 != (#[trigger] rs[b]).0,
        0 <= i < rs.len(),
        rs[i].0 == id,
    ensures
        route_in(rs, id) == Some(rs[i].1),
{
    let j = choose|j: int| 0 <= j < rs.len() && (#[trigger] rs[j]).0 == id;
    if i < j {
        assert(rs[i].0 != rs[j].0);
    } else if j < i {
        assert(rs[j].0 != rs[i].0);
    }
}

/// Replacing one entry leaves every other key's route as it was.
proof fn lemma_route_frame(
    rs: Seq<(Identity, Peer)>,
    os: Seq<(Identity, Peer)>,
    x: Identity,
    i: int,
)
    requires
        rs.len() == os.len(),
        forall|k: int| 0 <= k < rs.len() && k != i ==> #[trigger] rs[k] == os[k],
        0 <= i < rs.len(),
        rs[i].0 == os[i].0,
        x != rs[i].0,
        forall|a: int, b: int| 0 <= a < b < rs.len() ==> (#[trigger] rs[a]).0 != (#[trigger] rs[b]).0,
        forall|a: int, b: int| 0 <= a < b < os.len() ==> (#[trigger] os[a]).0 != (#[trigger] os[b]).0,
    ensures
        route_in(rs, x) == route_in(os, x),
{
    if exists|k: int| 0 <= k < rs.len() && (#[trigger] rs[k]).0 == x {
        let k = choose|k: int| 0 <= k < rs.len() && (#[trigger] rs[k]).0 == x;
        assert(k != i);
        assert(os[k].0 == x);
        lemma_route_lookup(rs, x, k);
        lemma_route_lookup(os, x, k);
    } else {
        if exists|k: int| 0 <= k < os.len() && (#[trigger] os[k]).0 == x {
            let k = choose|k: int| 0 <= k < os.len() && (#[trigger] os[k]).0 == x;
            assert(k != i);
            assert(rs[k].0 == x);
        }
    }
}

/// Appending an entry for a new key leaves every other key's route as it
/// was.
proof fn lemma_route_frame_push(
    rs: Seq<(Identity, Peer)>,
    os: Seq<(Identity, Peer)>,
    x: Identity,
)
    requires
        rs.len() == os.len() + 1,
        forall|k: int| 0 <= k < os.len() ==> #[trigger] rs[k] == os[k],
        x != rs[rs.len() - 1].0,
        forall|a: int, b: int| 0 <= a < b < rs.len() ==> (#[trigger] rs[a]).0 != (#[trigger] rs[b]).0,
    ensures
        route_in(rs, x) == route_in(os, x),
{
    if exists|k: int| 0 <= k < rs.len() && (#[trigger] rs[k]).0 == x {
        let k = choose|k: int| 0 <= k < rs.len() && (#[trigger] rs[k]).0 == x;
        assert(k < os.len());
        assert(os[k].0 == x);
        lemma_route_lookup(rs, x, k);
        assert forall|a: int, b: int|
            0 <= a < b < os.len() implies (#[trigger] os[a]).0 != (#[trigger] os[b]).0 by {
            assert(os[a] == rs[a] && os[b] == rs[b]);
        }
        lemma_route_lookup(os, x, k);
    } else {
        if exists|k: int| 0 <= k < os.len() && (#[trigger] os[k]).0 == x {
            let k = choose|k: int| 0 <= k < os.len() && (#[trigger] os[k]).0 == x;
            assert(rs[k].0 == x);
        }
    }
}

} // verus!
