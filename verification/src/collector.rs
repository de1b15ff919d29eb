//! The collector: per-sequence reassembly of frames into messages.
//!
//! Each sequence id owns a worker holding a buffer of in-flight frames,
//! kept sorted by sequence number with duplicates discarded.  Once the
//! buffer is a dense, terminated chain, the worker concatenates the
//! payloads, decodes the inner message payload, stamps the receive time and
//! hands the message back; reassembly is order-independent.

use vstd::prelude::*;

use crate::codec::{decode_payload, payload_bytes, wf_frame, wf_payload};
use crate::model::{Frame, Identity, Message, Payload, TimeSig};
use crate::slicer::{chain_wf, concat_payloads, restore_frames};

verus! {

/// Some buffered frame carries this sequence number.
pub open spec fn has_num(buf: Seq<Frame>, n: u32) -> bool {
    exists|i: int| 0 <= i < buf.len() && buf[i].seq.num == n
}

/// The buffer is strictly sorted by sequence number.
pub open spec fn buf_sorted(buf: Seq<Frame>) -> bool {
    forall|i: int, j: int|
        0 <= i < j < buf.len() ==> (#[trigger] buf[i]).seq.num < (#[trigger] buf[j]).seq.num
}

/// The buffer after one frame is offered: unchanged when its sequence
/// number is already buffered, else the frame in sorted position.
pub open spec fn buf_insert(buf: Seq<Frame>, f: Frame) -> Seq<Frame>
    decreases buf.len(),
{
    if buf.len() == 0 {
        seq![f]
    } else if f.seq.num < buf[0].seq.num {
        seq![f] + buf
    } else if f.seq.num == buf[0].seq.num {
        buf
    } else {
        seq![buf[0]] + buf_insert(buf.skip(1), f)
    }
}

/// The buffer holds a complete chain: its last frame carries no successor
/// mark and sequence numbers fill every slot from zero.
pub open spec fn buf_complete(buf: Seq<Frame>) -> bool {
    &&& buf.len() >= 1
    &&& buf[buf.len() - 1].seq.next is None
    &&& forall|i: int| 0 <= i < buf.len() ==> (#[trigger] buf[i]).seq.num == i
}

/// What one offered frame does to a sorted buffer.
#[verifier::rlimit(60)]
pub proof fn lemma_buf_insert_props(buf: Seq<Frame>, f: Frame)
    requires
        buf_sorted(buf),
    ensures
        buf_sorted(buf_insert(buf, f)),
        has_num(buf, f.seq.num) ==> buf_insert(buf, f) == buf,
        !has_num(buf, f.seq.num) ==> buf_insert(buf, f).len() == buf.len() + 1,
        forall|x: Frame|
            #[trigger] buf_insert(buf, f).contains(x) <==> (buf.contains(x) || (x == f && !has_num(
                buf,
                f.seq.num,
            ))),
    decreases buf.len(),
{
    let nb = buf_insert(buf, f);
    if buf.len() == 0 {
        assert(!has_num(buf, f.seq.num));
        assert forall|x: Frame| #[trigger] nb.contains(x) <==> (buf.contains(x) || x == f) by {
            assert(nb[0] == f);
            if nb.contains(x) {
                let i = choose|i: int| 0 <= i < nb.len() && nb[i] == x;
                assert(i == 0);
            }
        }
    } else if f.seq.num < buf[0].seq.num {
        assert forall|n: u32| has_num(buf, n) implies n >= buf[0].seq.num by {
            let i = choose|i: int| 0 <= i < buf.len() && buf[i].seq.num == n;
            if i > 0 {
                assert(buf[0].seq.num < buf[i].seq.num);
            }
        }
        assert(!has_num(buf, f.seq.num));
        assert(nb == seq![f] + buf);
        assert forall|i: int, j: int|
            0 <= i < j < nb.len() implies (#[trigger] nb[i]).seq.num < (
        #[trigger] nb[j]).seq.num by {
            if i == 0 {
                assert(nb[j] == buf[j - 1]);
                if j - 1 > 0 {
                    assert(buf[0].seq.num < buf[j - 1].seq.num);
                }
            } else {
                assert(nb[i] == buf[i - 1] && nb[j] == buf[j - 1]);
            }
        }
        assert forall|x: Frame| #[trigger] nb.contains(x) <==> (buf.contains(x) || x == f) by {
            if nb.contains(x) {
                let i = choose|i: int| 0 <= i < nb.len() && nb[i] == x;
                if i > 0 {
                    assert(buf[i - 1] == x);
                }
            }
            if buf.contains(x) {
                let i = choose|i: int| 0 <= i < buf.len() && buf[i] == x;
                assert(nb[i + 1] == x);
            }
            if x == f {
                assert(nb[0] == x);
            }
        }
    } else if f.seq.num == buf[0].seq.num {
        assert(has_num(buf, f.seq.num)) by {
            assert(buf[0].seq.num == f.seq.num);
        }
    } else {
        let rest = buf.skip(1);
        assert(buf_sorted(rest)) by {
            assert forall|i: int, j: int|
                0 <= i < j < rest.len() implies (#[trigger] rest[i]).seq.num < (
            #[trigger] rest[j]).seq.num by {
                assert(rest[i] == buf[i + 1] && rest[j] == buf[j + 1]);
            }
        }
        lemma_buf_insert_props(rest, f);
        let nr = buf_insert(rest, f);
        assert(nb == seq![buf[0]] + nr);
        assert(has_num(buf, f.seq.num) <==> has_num(rest, f.seq.num)) by {
            if has_num(buf, f.seq.num) {
                let i = choose|i: int| 0 <= i < buf.len() && buf[i].seq.num == f.seq.num;
                assert(i > 0);
                assert(rest[i - 1].seq.num == f.seq.num);
            }
            if has_num(rest, f.seq.num) {
                let i = choose|i: int| 0 <= i < rest.len() && rest[i].seq.num == f.seq.num;
                assert(buf[i + 1].seq.num == f.seq.num);
            }
        }
        assert forall|x: Frame| #[trigger] nb.contains(x) <==> (buf.contains(x) || (x == f
            && !has_num(buf, f.seq.num))) by {
            if nb.contains(x) {
                let i = choose|i: int| 0 <= i < nb.len() && nb[i] == x;
                if i == 0 {
                    assert(buf[0] == x);
                } else {
                    assert(nr[i - 1] == x);
                    assert(nr.contains(x));
                    if rest.contains(x) {
                        let j = choose|j: int| 0 <= j < rest.len() && rest[j] == x;
                        assert(buf[j + 1] == x);
                    }
                }
            }
            if buf.contains(x) {
                let i = choose|i: int| 0 <= i < buf.len() && buf[i] == x;
                if i == 0 {
                    assert(nb[0] == x);
                } else {
                    assert(rest[i - 1] == x);
                    assert(nr.contains(x));
                    let j = choose|j: int| 0 <= j < nr.len() && nr[j] == x;
                    assert(nb[j + 1] == x);
                }
            }
            if x == f && !has_num(buf, f.seq.num) {
                assert(nr.contains(x));
                let j = choose|j: int| 0 <= j < nr.len() && nr[j] == x;
                assert(nb[j + 1] == x);
            }
        }
        if has_num(buf, f.seq.num) {
            assert(nb =~= buf);
        }
        assert forall|i: int, j: int|
            0 <= i < j < nb.len() implies (#[trigger] nb[i]).seq.num < (
        #[trigger] nb[j]).seq.num by {
            if i == 0 {
                assert(nb[j] == nr[j - 1]);
                assert(nr.contains(nr[j - 1]));
                if rest.contains(nr[j - 1]) {
                    let m = choose|m: int| 0 <= m < rest.len() && rest[m] == nr[j - 1];
                    assert(buf[m + 1] == nr[j - 1]);
                    if m + 1 > 0 {
                        assert(buf[0].seq.num < buf[m + 1].seq.num);
                    }
                } else {
                    assert(nr[j - 1] == f);
                }
            } else {
                assert(nb[i] == nr[i - 1] && nb[j] == nr[j - 1]);
            }
        }
    }
}

/// The one place a frame may sit in a sorted buffer.
pub proof fn lemma_buf_insert_at(buf: Seq<Frame>, f: Frame, pos: int)
    requires
        buf_sorted(buf),
        0 <= pos <= buf.len(),
        forall|j: int| 0 <= j < pos ==> (#[trigger] buf[j]).seq.num < f.seq.num,
        pos < buf.len() ==> buf[pos].seq.num > f.seq.num,
    ensures
        buf_insert(buf, f) == buf.insert(pos, f),
    decreases buf.len(),
{
    if pos == 0 {
        if buf.len() == 0 {
            assert(buf.insert(0, f) =~= seq![f]);
        } else {
            assert(f.seq.num < buf[0].seq.num);
            assert(buf.insert(0, f) =~= seq![f] + buf);
        }
    } else {
        assert(buf[0].seq.num < f.seq.num);
        let rest = buf.skip(1);
        assert(buf_sorted(rest)) by {
            assert forall|i: int, j: int|
                0 <= i < j < rest.len() implies (#[trigger] rest[i]).seq.num < (
            #[trigger] rest[j]).seq.num by {
                assert(rest[i] == buf[i + 1] && rest[j] == buf[j + 1]);
            }
        }
        assert forall|j: int| 0 <= j < pos - 1 implies (#[trigger] rest[j]).seq.num
            < f.seq.num by {
            assert(rest[j] == buf[j + 1]);
        }
        assert(pos - 1 < rest.len() ==> rest[pos - 1].seq.num > f.seq.num);
        lemma_buf_insert_at(rest, f, pos - 1);
        assert(buf.insert(pos, f) =~= seq![buf[0]] + rest.insert(pos - 1, f));
    }
}

/// The outcome of offering one frame to a worker.
pub enum CollectOutcome {
    /// The chain is still missing frames.
    Incomplete,
    /// The chain completed and its payload decoded into a message.
    Complete(Message),
    /// The chain completed but the reassembled payload did not decode;
    /// nothing is delivered.
    Failed,
}

/// A per-sequence reassembly worker.
pub struct Worker {
    seq: Identity,
    buf: Vec<Frame>,
}

impl Worker {
    /// The sequence this worker collects.
    pub closed spec fn seq_id(&self) -> Identity {
        self.seq
    }

    /// The frames buffered so far, sorted by sequence number.
    pub closed spec fn buf_seq(&self) -> Seq<Frame> {
        self.buf@
    }

    /// The buffer is sorted and every frame belongs to this sequence.
    pub open spec fn wf(&self) -> bool {
        &&& buf_sorted(self.buf_seq())
        &&& forall|i: int|
            0 <= i < self.buf_seq().len() ==> (#[trigger] self.buf_seq()[i]).seq.seqid
                == self.seq_id() && wf_frame(self.buf_seq()[i])
    }

    /// A fresh worker for one sequence.
    pub fn new(seq: Identity) -> (r: Worker)
        ensures
            r.wf(),
            r.seq_id() == seq,
            r.buf_seq() == Seq::<Frame>::empty(),
    {
        Worker { seq, buf: Vec::new() }
    }

    /// Offer one frame.  A duplicate sequence number is discarded; once the
    /// buffer is a dense, terminated chain the payloads are concatenated,
    /// decoded, stamped with the receive time `now`, and returned.
    #[verifier::rlimit(100)]
    pub fn ingest(&mut self, frame: Frame, now: u64) -> (r: CollectOutcome)
        requires
            old(self).wf(),
            wf_frame(frame),
            frame.seq.seqid == old(self).seq_id(),
        ensures
            final(self).seq_id() == old(self).seq_id(),
            final(self).wf(),
            final(self).buf_seq() == buf_insert(old(self).buf_seq(), frame),
            !buf_complete(buf_insert(old(self).buf_seq(), frame)) <==> r is Incomplete,
            r matches CollectOutcome::Complete(m) ==> ({
                let nb = buf_insert(old(self).buf_seq(), frame);
                &&& m.id == old(self).seq_id()
                &&& m.sender == nb[0].sender
                &&& m.recipient == nb[0].recipient
                &&& m.timesig.received == Some(now)
                &&& exists|p: Payload|
                    #[trigger] payload_bytes(p) == concat_payloads(nb) && wf_payload(p)
                        && m.payload@ == p.payload@ && m.sign@ == p.sign@ && m.timesig.sent
                        == p.timesig.sent
            }),
            forall|p: Payload|
                (buf_complete(buf_insert(old(self).buf_seq(), frame)) && wf_payload(p)
                    && #[trigger] payload_bytes(p) == concat_payloads(
                    buf_insert(old(self).buf_seq(), frame),
                ) && concat_payloads(buf_insert(old(self).buf_seq(), frame)).len() <= usize::MAX)
                    ==> (r matches CollectOutcome::Complete(m) && m.payload@ == p.payload@
                    && m.sign@ == p.sign@ && m.timesig.sent == p.timesig.sent),
    {
        let ghost oldbuf = self.buf@;
        let ghost nb = buf_insert(self.buf@, frame);
        proof {
            lemma_buf_insert_props(oldbuf, frame);
        }
        // Insert the frame in sorted position, discarding a duplicate.
        let n = self.buf.len();
        let mut pos: usize = 0;
        while pos < n && self.buf[pos].seq.num < frame.seq.num
            invariant
                pos <= n == self.buf@.len(),
                forall|j: int| 0 <= j < pos ==> (#[trigger] self.buf@[j]).seq.num < frame.seq.num,
            decreases n - pos,
        {
            pos = pos + 1;
        }
        if pos < n && self.buf[pos].seq.num == frame.seq.num {
            proof {
                assert(has_num(oldbuf, frame.seq.num)) by {
                    assert(oldbuf[pos as int].seq.num == frame.seq.num);
                }
                assert(self.buf@ == nb);
            }
        } else {
            proof {
                if pos < n {
                    assert(oldbuf[pos as int].seq.num > frame.seq.num);
                }
                lemma_buf_insert_at(oldbuf, frame, pos as int);
            }
            self.buf.insert(pos, frame);
            proof {
                assert(self.buf@ == nb);
            }
        }
        proof {
            assert forall|i: int|
                0 <= i < nb.len() implies (#[trigger] nb[i]).seq.seqid == self.seq && wf_frame(
                nb[i],
            ) by {
                assert(nb.contains(nb[i]));
            }
        }
        // Test for completion: dense numbering and a terminal frame.
        let len = self.buf.len();
        let mut dense = true;
        let mut i: usize = 0;
        while i < len
            invariant
                i <= len == self.buf@.len(),
                self.buf@ == nb,
                dense <==> (forall|j: int| 0 <= j < i ==> (#[trigger] nb[j]).seq.num == j),
            decreases len - i,
        {
            if self.buf[i].seq.num as usize != i {
                dense = false;
            }
            i = i + 1;
        }
        let terminal = len >= 1 && self.buf[len - 1].seq.next.is_none();
        if !(dense && terminal) {
            proof {
                assert(!buf_complete(nb));
            }
            return CollectOutcome::Incomplete;
        }
        proof {
            assert(buf_complete(nb));
            assert(len <= 0x1_0000_0000) by {
                assert(nb[len - 1].seq.num == len - 1);
            }
        }
        // Sum the payload lengths so the restore cannot overflow.
        let mut total: u64 = 0;
        let mut k: usize = 0;
        proof {
            assert(nb.subrange(0, 0) =~= Seq::<Frame>::empty());
        }
        while k < len
            invariant
                k <= len == self.buf@.len(),
                self.buf@ == nb,
                len <= 0x1_0000_0000,
                forall|i2: int| 0 <= i2 < nb.len() ==> wf_frame(#[trigger] nb[i2]),
                total == concat_payloads(nb.subrange(0, k as int)).len(),
                total <= k * 0xFFFF_FF00,
            decreases len - k,
        {
            proof {
                assert(nb.subrange(0, k as int + 1) =~= nb.subrange(0, k as int).push(
                    nb[k as int],
                ));
                crate::slicer::lemma_concat_push(nb.subrange(0, k as int), nb[k as int]);
                assert(wf_frame(nb[k as int]));
                assert(total + nb[k as int].payload@.len() <= (k + 1) * 0xFFFF_FF00) by (nonlinear_arith)
                    requires
                        total <= k * 0xFFFF_FF00,
                        nb[k as int].payload@.len() <= 0xFFFF_FF00,
                ;
                assert((k + 1) * 0xFFFF_FF00 <= 0x1_0000_0000 * 0xFFFF_FF00) by (nonlinear_arith)
                    requires
                        k + 1 <= 0x1_0000_0000,
                ;
            }
            total = total + self.buf[k].payload.len() as u64;
            k = k + 1;
        }
        proof {
            assert(nb.subrange(0, len as int) =~= nb);
        }
        if total > usize::MAX as u64 {
            return CollectOutcome::Failed;
        }
        // Restore and decode the inner payload.
        let bytes = restore_frames(&self.buf);
        let dec = decode_payload(&bytes, 0);
        match dec {
            Some((p, consumed)) => {
                if consumed == bytes.len() {
                    proof {
                        assert(bytes@.subrange(0, consumed as int) =~= bytes@);
                    }
                    let m = Message {
                        id: self.seq,
                        sender: self.buf[0].sender,
                        recipient: self.buf[0].recipient,
                        payload: p.payload,
                        timesig: TimeSig { sent: p.timesig.sent, received: Some(now) },
                        sign: p.sign,
                    };
                    proof {
                        assert(payload_bytes(p) == concat_payloads(nb));
                        assert forall|q: Payload|
                            (buf_complete(nb) && wf_payload(q) && #[trigger] payload_bytes(q)
                                == concat_payloads(nb) && concat_payloads(nb).len()
                                <= usize::MAX) implies (m.payload@ == q.payload@ && m.sign@
                            == q.sign@ && m.timesig.sent == q.timesig.sent) by {
                            assert(crate::codec::prefix_at(bytes@, 0, payload_bytes(q))) by {
                                assert(bytes@.subrange(0, payload_bytes(q).len() as int) =~= bytes@);
                            }
                        }
                    }
                    CollectOutcome::Complete(m)
                } else {
                    proof {
                        assert forall|q: Payload|
                            (buf_complete(nb) && wf_payload(q) && #[trigger] payload_bytes(q)
                                == concat_payloads(nb) && concat_payloads(nb).len()
                                <= usize::MAX) implies false by {
                            assert(crate::codec::prefix_at(bytes@, 0, payload_bytes(q))) by {
                                assert(bytes@.subrange(0, payload_bytes(q).len() as int) =~= bytes@);
                            }
                        }
                    }
                    CollectOutcome::Failed
                }
            }
            None => {
                proof {
                    assert forall|q: Payload|
                        (buf_complete(nb) && wf_payload(q) && #[trigger] payload_bytes(q)
                            == concat_payloads(nb) && concat_payloads(nb).len()
                            <= usize::MAX) implies false by {
                        assert(crate::codec::prefix_at(bytes@, 0, payload_bytes(q))) by {
                            assert(bytes@.subrange(0, payload_bytes(q).len() as int) =~= bytes@);
                        }
                    }
                }
                CollectOutcome::Failed
            }
        }
    }
}

/// Some worker in the list collects this sequence id.
pub open spec fn sw_has(ws: Seq<Worker>, id: Identity) -> bool {
    exists|i: int| 0 <= i < ws.len() && (#[trigger] ws[i]).seq_id() == id
}

/// The buffer of the worker collecting this sequence id; empty when none.
pub open spec fn sw_buf(ws: Seq<Worker>, id: Identity) -> Seq<Frame> {
    if sw_has(ws, id) {
        let i = choose|i: int| 0 <= i < ws.len() && (#[trigger] ws[i]).seq_id() == id;
        ws[i].buf_seq()
    } else {
        Seq::empty()
    }
}

/// No two workers collect the same sequence id.
pub open spec fn sw_unique(ws: Seq<Worker>) -> bool {
    forall|i: int, j: int|
        0 <= i < j < ws.len() ==> (#[trigger] ws[i]).seq_id() != (#[trigger] ws[j]).seq_id()
}

/// With unique ids, the worker holding an id is the one at its index.
proof fn lemma_sw_at(ws: Seq<Worker>, id: Identity, i: int)
    requires
        sw_unique(ws),
        0 <= i < ws.len(),
        ws[i].seq_id() == id,
    ensures
        sw_has(ws, id),
        sw_buf(ws, id) == ws[i].buf_seq(),
{
    assert(sw_has(ws, id));
    let j = choose|j: int| 0 <= j < ws.len() && (#[trigger] ws[j]).seq_id() == id;
    if i < j {
        assert(ws[i].seq_id() != ws[j].seq_id());
    } else if j < i {
        assert(ws[j].seq_id() != ws[i].seq_id());
    }
}

/// Removing one worker takes its id out of the map and leaves the rest.
proof fn lemma_sw_remove(ws: Seq<Worker>, i: int)
    requires
        sw_unique(ws),
        0 <= i < ws.len(),
    ensures
        sw_unique(ws.remove(i)),
        !sw_has(ws.remove(i), ws[i].seq_id()),
        forall|id: Identity|
            id != ws[i].seq_id() ==> #[trigger] sw_has(ws.remove(i), id) == sw_has(ws, id),
        forall|id: Identity|
            id != ws[i].seq_id() ==> #[trigger] sw_buf(ws.remove(i), id) == sw_buf(ws, id),
        forall|k: int|
            0 <= k < ws.remove(i).len() ==> #[trigger] ws.remove(i)[k] == (if k < i {
                ws[k]
            } else {
                ws[k + 1]
            }),
{
    let wr = ws.remove(i);
    ws.remove_ensures(i);
    assert forall|k: int| 0 <= k < wr.len() implies #[trigger] wr[k] == (if k < i {
        ws[k]
    } else {
        ws[k + 1]
    }) by {}
    assert forall|id: Identity| !(id == ws[i].seq_id()) implies #[trigger] sw_has(wr, id)
        == sw_has(ws, id) by {
        if sw_has(wr, id) {
            let k = choose|k: int| 0 <= k < wr.len() && (#[trigger] wr[k]).seq_id() == id;
            if k < i {
                assert(ws[k].seq_id() == id);
            } else {
                assert(ws[k + 1].seq_id() == id);
            }
        }
        if sw_has(ws, id) {
            let k = choose|k: int| 0 <= k < ws.len() && (#[trigger] ws[k]).seq_id() == id;
            if k < i {
                assert(wr[k].seq_id() == id);
            } else {
                assert(k > i);
                assert(wr[k - 1].seq_id() == id);
            }
        }
    }
    if sw_has(wr, ws[i].seq_id()) {
        let k = choose|k: int| 0 <= k < wr.len() && (#[trigger] wr[k]).seq_id() == ws[i].seq_id();
        if k < i {
            assert(ws[k].seq_id() == ws[i].seq_id());
        } else {
            assert(ws[k + 1].seq_id() == ws[i].seq_id());
        }
    }
    assert forall|id: Identity| !(id == ws[i].seq_id()) implies #[trigger] sw_buf(wr, id)
        == sw_buf(ws, id) by {
        if sw_has(wr, id) {
            let k = choose|k: int| 0 <= k < wr.len() && (#[trigger] wr[k]).seq_id() == id;
            if k < i {
                lemma_sw_at(ws, id, k);
                lemma_sw_at(wr, id, k);
            } else {
                lemma_sw_at(ws, id, k + 1);
                lemma_sw_at(wr, id, k);
            }
        }
    }
}

/// Adding a worker for a new id binds that id and leaves the rest.
proof fn lemma_sw_push(ws: Seq<Worker>, w: Worker)
    requires
        sw_unique(ws),
        !sw_has(ws, w.seq_id()),
    ensures
        sw_unique(ws.push(w)),
        sw_has(ws.push(w), w.seq_id()),
        sw_buf(ws.push(w), w.seq_id()) == w.buf_seq(),
        forall|id: Identity|
            id != w.seq_id() ==> #[trigger] sw_has(ws.push(w), id) == sw_has(ws, id),
        forall|id: Identity|
            id != w.seq_id() ==> #[trigger] sw_buf(ws.push(w), id) == sw_buf(ws, id),
{
    let wp = ws.push(w);
    assert(wp[ws.len() as int] == w);
    assert forall|i: int, j: int|
        0 <= i < j < wp.len() implies (#[trigger] wp[i]).seq_id() != (
    #[trigger] wp[j]).seq_id() by {
        if j < ws.len() {
            assert(wp[i] == ws[i] && wp[j] == ws[j]);
        } else {
            assert(wp[j] == w);
            assert(wp[i] == ws[i]);
            if ws[i].seq_id() == w.seq_id() {
                assert(sw_has(ws, w.seq_id()));
            }
        }
    }
    lemma_sw_at(wp, w.seq_id(), ws.len() as int);
    assert forall|id: Identity| !(id == w.seq_id()) implies #[trigger] sw_has(wp, id) == sw_has(
        ws,
        id,
    ) by {
        if sw_has(wp, id) {
            let k = choose|k: int| 0 <= k < wp.len() && (#[trigger] wp[k]).seq_id() == id;
            assert(k < ws.len());
            assert(ws[k].seq_id() == id);
        }
        if sw_has(ws, id) {
            let k = choose|k: int| 0 <= k < ws.len() && (#[trigger] ws[k]).seq_id() == id;
            assert(wp[k].seq_id() == id);
        }
    }
    assert forall|id: Identity| !(id == w.seq_id()) implies #[trigger] sw_buf(wp, id) == sw_buf(
        ws,
        id,
    ) by {
        if sw_has(ws, id) {
            let k = choose|k: int| 0 <= k < ws.len() && (#[trigger] ws[k]).seq_id() == id;
            lemma_sw_at(ws, id, k);
            lemma_sw_at(wp, id, k);
        }
    }
}

/// Shared collector state: one worker per in-flight sequence id, created on
/// a sequence's first frame and dropped when its message completes or its
/// payload proves undecodable.
pub struct Collector {
    workers: Vec<Worker>,
}

impl Collector {
    /// Every worker is well formed and no sequence id has two workers.
    pub closed spec fn wf(&self) -> bool {
        &&& sw_unique(self.workers@)
        &&& forall|i: int| 0 <= i < self.workers@.len() ==> (#[trigger] self.workers@[i]).wf()
    }

    /// A worker for this sequence id is in flight.
    pub closed spec fn has_worker(&self, id: Identity) -> bool {
        sw_has(self.workers@, id)
    }

    /// The frames buffered for this sequence id; empty when none are.
    pub closed spec fn buf_of(&self, id: Identity) -> Seq<Frame> {
        sw_buf(self.workers@, id)
    }

    /// A fresh collector with no sequence in flight.
    pub fn new() -> (r: Collector)
        ensures
            r.wf(),
            forall|id: Identity| !(#[trigger] r.has_worker(id)),
    {
        Collector { workers: Vec::new() }
    }

    /// Find the index of the worker for a sequence id.
    fn find(&self, id: &Identity) -> (r: Option<usize>)
        ensures
            r matches Some(i) ==> 0 <= i < self.workers@.len() && self.workers@[i as int].seq_id()
                == *id,
            r is None ==> !sw_has(self.workers@, *id),
    {
        let mut i: usize = 0;
        while i < self.workers.len()
            invariant
                i <= self.workers@.len(),
                forall|j: int| 0 <= j < i ==> (#[trigger] self.workers@[j]).seq_id() != *id,
            decreases self.workers@.len() - i,
        {
            let found = {
                let w = &self.workers[i];
                w.seq == *id
            };
            if found {
                return Some(i);
            }
            i = i + 1;
        }
        proof {
            if sw_has(self.workers@, *id) {
                let k = choose|k: int|
                    0 <= k < self.workers@.len() && (#[trigger] self.workers@[k]).seq_id() == *id;
                assert(self.workers@[k].seq_id() != *id);
            }
        }
        None
    }

    /// Route one frame to its sequence's worker, creating the worker on a
    /// sequence's first frame and dropping it once the sequence ends.
    pub fn ingest(&mut self, frame: Frame, now: u64) -> (r: CollectOutcome)
        requires
            old(self).wf(),
            wf_frame(frame),
        ensures
            final(self).wf(),
            r is Incomplete <==> !buf_complete(
                buf_insert(old(self).buf_of(frame.seq.seqid), frame),
            ),
            r is Incomplete ==> final(self).has_worker(frame.seq.seqid) && final(self).buf_of(
                frame.seq.seqid,
            ) == buf_insert(old(self).buf_of(frame.seq.seqid), frame),
            !(r is Incomplete) ==> !final(self).has_worker(frame.seq.seqid),
            forall|id: Identity|
                id != frame.seq.seqid ==> #[trigger] final(self).has_worker(id) == old(
                    self,
                ).has_worker(id) && final(self).buf_of(id) == old(self).buf_of(id),
            r matches CollectOutcome::Complete(m) ==> ({
                let nb = buf_insert(old(self).buf_of(frame.seq.seqid), frame);
                &&& m.id == frame.seq.seqid
                &&& m.sender == nb[0].sender
                &&& m.recipient == nb[0].recipient
                &&& m.timesig.received == Some(now)
                &&& exists|p: Payload|
                    #[trigger] payload_bytes(p) == concat_payloads(nb) && wf_payload(p)
                        && m.payload@ == p.payload@ && m.sign@ == p.sign@ && m.timesig.sent
                        == p.timesig.sent
            }),
            forall|p: Payload|
                (buf_complete(buf_insert(old(self).buf_of(frame.seq.seqid), frame)) && wf_payload(
                    p,
                ) && #[trigger] payload_bytes(p) == concat_payloads(
                    buf_insert(old(self).buf_of(frame.seq.seqid), frame),
                ) && concat_payloads(buf_insert(old(self).buf_of(frame.seq.seqid), frame)).len()
                    <= usize::MAX) ==> (r matches CollectOutcome::Complete(m) && m.payload@
                    == p.payload@ && m.sign@ == p.sign@ && m.timesig.sent == p.timesig.sent),
    {
        let sid = frame.seq.seqid;
        let found = self.find(&sid);
        match found {
            Some(i) => {
                proof {
                    lemma_sw_at(self.workers@, sid, i as int);
                }
                let ghost ws0 = self.workers@;
                let mut w = self.workers.remove(i);
                proof {
                    lemma_sw_remove(ws0, i as int);
                }
                let outcome = w.ingest(frame, now);
                match outcome {
                    CollectOutcome::Incomplete => {
                        proof {
                            lemma_sw_push(self.workers@, w);
                        }
                        self.workers.push(w);
                        CollectOutcome::Incomplete
                    }
                    other => other,
                }
            }
            None => {
                let mut w = Worker::new(sid);
                let outcome = w.ingest(frame, now);
                let ghost ws0 = self.workers@;
                match outcome {
                    CollectOutcome::Incomplete => {
                        proof {
                            lemma_sw_push(self.workers@, w);
                        }
                        self.workers.push(w);
                        CollectOutcome::Incomplete
                    }
                    other => other,
                }
            }
        }
    }
}

/// A buffer as it stands after a sequence of frames is offered in order.
pub open spec fn feed(buf: Seq<Frame>, order: Seq<Frame>) -> Seq<Frame>
    decreases order.len(),
{
    if order.len() == 0 {
        buf
    } else {
        feed(buf_insert(buf, order[0]), order.skip(1))
    }
}

/// Feeding one more frame is one more insert.
pub proof fn lemma_feed_push(buf: Seq<Frame>, order: Seq<Frame>, f: Frame)
    ensures
        feed(buf, order.push(f)) == buf_insert(feed(buf, order), f),
    decreases order.len(),
{
    if order.len() == 0 {
        assert(order.push(f)[0] == f);
        assert(order.push(f).skip(1) =~= Seq::<Frame>::empty());
        assert(feed(buf, order.push(f)) == feed(
            buf_insert(buf, f),
            Seq::<Frame>::empty(),
        ));
        assert(feed(buf_insert(buf, f), Seq::<Frame>::empty()) == buf_insert(buf, f));
        assert(feed(buf, order) == buf);
    } else {
        assert(order.push(f)[0] == order[0]);
        assert(order.push(f).skip(1) =~= order.skip(1).push(f));
        lemma_feed_push(buf_insert(buf, order[0]), order.skip(1), f);
        assert(feed(buf, order.push(f)) == feed(
            buf_insert(buf, order[0]),
            order.skip(1).push(f),
        ));
        assert(feed(buf, order) == feed(buf_insert(buf, order[0]), order.skip(1)));
    }
}

/// A frame of a well-formed chain is the chain's frame at its own number.
pub proof fn lemma_chain_elem(
    fs: Seq<Frame>,
    sender: Identity,
    recipient: crate::model::Recipient,
    seqid: Identity,
    x: Frame,
)
    requires
        chain_wf(fs, sender, recipient, seqid),
        fs.contains(x),
    ensures
        0 <= x.seq.num < fs.len(),
        x == fs[x.seq.num as int],
{
    let i = choose|i: int| 0 <= i < fs.len() && fs[i] == x;
    assert(fs[i].seq.num == i);
}

/// Two strictly sorted buffers with the same frames are the same buffer.
pub proof fn lemma_sorted_same_elements(a: Seq<Frame>, b: Seq<Frame>)
    requires
        buf_sorted(a),
        buf_sorted(b),
        forall|x: Frame| a.contains(x) <==> b.contains(x),
    ensures
        a == b,
    decreases a.len(),
{
    if a.len() == 0 {
        if b.len() > 0 {
            assert(b.contains(b[0]));
            assert(a.contains(b[0]));
        }
        assert(a =~= b);
    } else {
        assert(a.contains(a[0]));
        assert(b.contains(a[0]));
        let i = choose|i: int| 0 <= i < b.len() && b[i] == a[0];
        if i > 0 {
            assert(b.contains(b[0]));
            assert(a.contains(b[0]));
            let j = choose|j: int| 0 <= j < a.len() && a[j] == b[0];
            assert(b[0].seq.num < b[i].seq.num);
            if j > 0 {
                assert(a[0].seq.num < a[j].seq.num);
            }
        }
        assert(b[0] == a[0]);
        let ra = a.skip(1);
        let rb = b.skip(1);
        assert(buf_sorted(ra)) by {
            assert forall|p: int, q: int|
                0 <= p < q < ra.len() implies (#[trigger] ra[p]).seq.num < (
            #[trigger] ra[q]).seq.num by {
                assert(ra[p] == a[p + 1] && ra[q] == a[q + 1]);
            }
        }
        assert(buf_sorted(rb)) by {
            assert forall|p: int, q: int|
                0 <= p < q < rb.len() implies (#[trigger] rb[p]).seq.num < (
            #[trigger] rb[q]).seq.num by {
                assert(rb[p] == b[p + 1] && rb[q] == b[q + 1]);
            }
        }
        assert forall|x: Frame| ra.contains(x) <==> rb.contains(x) by {
            if ra.contains(x) {
                let p = choose|p: int| 0 <= p < ra.len() && ra[p] == x;
                assert(a[p + 1] == x);
                assert(a.contains(x));
                assert(a[0].seq.num < a[p + 1].seq.num);
                assert(b.contains(x));
                let q = choose|q: int| 0 <= q < b.len() && b[q] == x;
                assert(q > 0) by {
                    if q == 0 {
                        assert(x == a[0]);
                    }
                }
                assert(rb[q - 1] == x);
            }
            if rb.contains(x) {
                let p = choose|p: int| 0 <= p < rb.len() && rb[p] == x;
                assert(b[p + 1] == x);
                assert(b.contains(x));
                assert(b[0].seq.num < b[p + 1].seq.num);
                assert(a.contains(x));
                let q = choose|q: int| 0 <= q < a.len() && a[q] == x;
                assert(q > 0) by {
                    if q == 0 {
                        assert(x == b[0]);
                    }
                }
                assert(ra[q - 1] == x);
            }
        }
        lemma_sorted_same_elements(ra, rb);
        assert(a =~= b) by {
            assert forall|k: int| 0 <= k < a.len() implies a[k] == b[k] by {
                if k > 0 {
                    assert(ra[k - 1] == a[k] && rb[k - 1] == b[k]);
                }
            }
        }
    }
}

/// After any number of chain frames are fed into an empty buffer, the
/// buffer is a sorted selection of the chain holding exactly the frames fed
/// so far.
proof fn lemma_feed_invariant(
    fs: Seq<Frame>,
    order: Seq<Frame>,
    k: int,
    sender: Identity,
    recipient: crate::model::Recipient,
    seqid: Identity,
)
    requires
        chain_wf(fs, sender, recipient, seqid),
        forall|x: Frame| order.contains(x) ==> fs.contains(x),
        0 <= k <= order.len(),
    ensures
        buf_sorted(feed(Seq::<Frame>::empty(), order.subrange(0, k))),
        forall|x: Frame|
            feed(Seq::<Frame>::empty(), order.subrange(0, k)).contains(x) <==> order.subrange(
                0,
                k,
            ).contains(x),
        feed(Seq::<Frame>::empty(), order.subrange(0, k)).len() <= k,
    decreases k,
{
    if k == 0 {
        assert(order.subrange(0, 0) =~= Seq::<Frame>::empty());
        assert(feed(Seq::<Frame>::empty(), Seq::<Frame>::empty()) == Seq::<Frame>::empty());
    } else {
        lemma_feed_invariant(fs, order, k - 1, sender, recipient, seqid);
        let s = order.subrange(0, k - 1);
        let buf0 = feed(Seq::<Frame>::empty(), s);
        let f = order[k - 1];
        assert(order.subrange(0, k) =~= s.push(f));
        lemma_feed_push(Seq::<Frame>::empty(), s, f);
        lemma_buf_insert_props(buf0, f);
        let buf1 = buf_insert(buf0, f);
        assert(order.contains(f)) by {
            assert(order[k - 1] == f);
        }
        assert(fs.contains(f));
        assert forall|x: Frame| buf1.contains(x) <==> s.push(f).contains(x) by {
            if buf1.contains(x) {
                if buf0.contains(x) {
                    assert(s.contains(x));
                    let p = choose|p: int| 0 <= p < s.len() && s[p] == x;
                    assert(s.push(f)[p] == x);
                } else {
                    assert(x == f);
                    assert(s.push(f)[s.len() as int] == x);
                }
            }
            if s.push(f).contains(x) {
                let p = choose|p: int| 0 <= p < s.push(f).len() && s.push(f)[p] == x;
                if p < s.len() {
                    assert(s[p] == x);
                    assert(s.contains(x));
                    assert(s.subrange(0, s.len() as int) =~= s);
                    assert(order.subrange(0, k - 1).contains(x));
                    assert(buf0.contains(x));
                    assert(buf1.contains(x));
                } else {
                    assert(x == f);
                    if has_num(buf0, f.seq.num) {
                        let q = choose|q: int|
                            0 <= q < buf0.len() && buf0[q].seq.num == f.seq.num;
                        assert(buf0.contains(buf0[q]));
                        assert(s.contains(buf0[q]));
                        assert(order.contains(buf0[q])) by {
                            let m = choose|m: int| 0 <= m < s.len() && s[m] == buf0[q];
                            assert(order[m] == buf0[q]);
                        }
                        assert(fs.contains(buf0[q]));
                        lemma_chain_elem(fs, sender, recipient, seqid, buf0[q]);
                        lemma_chain_elem(fs, sender, recipient, seqid, f);
                        assert(buf0[q] == f);
                        assert(buf1.contains(f));
                    } else {
                        assert(buf1.contains(f));
                    }
                }
            }
        }
    }
}

/// Law: reassembly is order-independent and completes exactly once.
/// Feeding the frames of one well-formed chain into a fresh buffer, in any
/// order, leaves the buffer short of completion until the last frame, and
/// on the last frame the buffer is exactly the chain, whose concatenated
/// payloads a worker then restores and decodes.
pub proof fn lemma_reassembly_order_independent(
    fs: Seq<Frame>,
    order: Seq<Frame>,
    sender: Identity,
    recipient: crate::model::Recipient,
    seqid: Identity,
)
    requires
        chain_wf(fs, sender, recipient, seqid),
        order.to_multiset() == fs.to_multiset(),
    ensures
        feed(Seq::<Frame>::empty(), order) == fs,
        buf_complete(fs),
        forall|k: int|
            0 <= k < order.len() ==> !buf_complete(
                #[trigger] feed(Seq::<Frame>::empty(), order.subrange(0, k)),
            ),
{
    broadcast use vstd::seq_lib::group_to_multiset_ensures;

    assert(order.len() == fs.len()) by {
        assert(order.len() == order.to_multiset().len());
        assert(fs.len() == fs.to_multiset().len());
    }
    assert forall|x: Frame| order.contains(x) <==> fs.contains(x) by {
        vstd::seq_lib::to_multiset_contains(order, x);
        vstd::seq_lib::to_multiset_contains(fs, x);
        assert(order.to_multiset().count(x) == fs.to_multiset().count(x));
    }
    assert(buf_complete(fs)) by {
        assert(fs[fs.len() - 1].seq.num == fs.len() - 1);
        assert(fs[fs.len() - 1].seq.next is None);
    }
    // No strict prefix completes: the buffer is too short to hold the
    // terminal frame at its own number.
    assert forall|k: int| 0 <= k < order.len() implies !buf_complete(
        #[trigger] feed(Seq::<Frame>::empty(), order.subrange(0, k)),
    ) by {
        lemma_feed_invariant(fs, order, k, sender, recipient, seqid);
        let buf = feed(Seq::<Frame>::empty(), order.subrange(0, k));
        if buf_complete(buf) {
            let last = buf[buf.len() - 1];
            assert(buf.contains(last));
            assert(order.subrange(0, k).contains(last));
            assert(order.contains(last)) by {
                let m = choose|m: int|
                    0 <= m < order.subrange(0, k).len() && order.subrange(0, k)[m] == last;
                assert(order[m] == last);
            }
            assert(fs.contains(last));
            lemma_chain_elem(fs, sender, recipient, seqid, last);
            assert(last.seq.num == buf.len() - 1);
            assert(buf.len() <= k < fs.len());
            assert(last == fs[buf.len() - 1]);
            assert(last.seq.next == Some(seqid));
        }
    }
    // Feeding everything yields the chain itself.
    lemma_feed_invariant(fs, order, order.len() as int, sender, recipient, seqid);
    let full = feed(Seq::<Frame>::empty(), order.subrange(0, order.len() as int));
    assert(order.subrange(0, order.len() as int) =~= order);
    assert(buf_sorted(fs)) by {
        assert forall|i: int, j: int|
            0 <= i < j < fs.len() implies (#[trigger] fs[i]).seq.num < (
        #[trigger] fs[j]).seq.num by {}
    }
    assert forall|x: Frame| full.contains(x) <==> fs.contains(x) by {}
    lemma_sorted_same_elements(full, fs);
}

/// Law: the collector sees a frame once.  Offering the same frame a second
/// time leaves the buffer exactly as the first offer left it.
pub proof fn lemma_ingest_duplicate_discarded(buf: Seq<Frame>, f: Frame)
    requires
        buf_sorted(buf),
    ensures
        buf_insert(buf_insert(buf, f), f) == buf_insert(buf, f),
{
    lemma_buf_insert_props(buf, f);
    let nb = buf_insert(buf, f);
    assert(has_num(nb, f.seq.num)) by {
        if has_num(buf, f.seq.num) {
            assert(nb == buf);
        } else {
            assert(nb.contains(f));
            let i = choose|i: int| 0 <= i < nb.len() && nb[i] == f;
            assert(nb[i].seq.num == f.seq.num);
        }
    }
    lemma_buf_insert_props(nb, f);
}

} // verus!
