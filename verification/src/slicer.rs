//! Slicing a serialised message payload into a chain of frames, and the
//! restore rule that reads the payload back out of a complete chain.

use vstd::prelude::*;

use crate::model::{Frame, Identity, Recipient, SeqData};
use crate::codec::wf_frame;

verus! {

/// The payloads of a frame sequence, concatenated in order.  Applied to a
/// chain sorted by sequence number this is the restore rule.
pub open spec fn concat_payloads(fs: Seq<Frame>) -> Seq<u8>
    decreases fs.len(),
{
    if fs.len() == 0 {
        Seq::empty()
    } else {
        fs[0].payload@ + concat_payloads(fs.skip(1))
    }
}

/// Appending one frame appends its payload to the concatenation.
pub proof fn lemma_concat_push(fs: Seq<Frame>, f: Frame)
    ensures
        concat_payloads(fs.push(f)) == concat_payloads(fs) + f.payload@,
    decreases fs.len(),
{
    if fs.len() == 0 {
        let single = fs.push(f);
        assert(single[0] == f);
        assert(single.skip(1) =~= Seq::<Frame>::empty());
        assert(concat_payloads(single.skip(1)) == Seq::<u8>::empty());
        assert(concat_payloads(fs) == Seq::<u8>::empty());
        assert(concat_payloads(fs.push(f)) =~= concat_payloads(fs) + f.payload@);
    } else {
        assert(fs.push(f).skip(1) =~= fs.skip(1).push(f));
        lemma_concat_push(fs.skip(1), f);
        assert(concat_payloads(fs.push(f)) =~= concat_payloads(fs) + f.payload@);
    }
}

/// A well-formed frame chain for one message: at least one frame, all frames
/// share sender, recipient and sequence id, sequence numbers run densely
/// from zero, and exactly the terminal frame has no successor mark.
pub open spec fn chain_wf(
    fs: Seq<Frame>,
    sender: Identity,
    recipient: Recipient,
    seqid: Identity,
) -> bool {
    &&& 1 <= fs.len() < 0x1_0000_0000
    &&& forall|i: int|
        0 <= i < fs.len() ==> {
            &&& (#[trigger] fs[i]).sender == sender
            &&& fs[i].recipient == recipient
            &&& fs[i].seq.seqid == seqid
            &&& fs[i].seq.num == i
            &&& fs[i].seq.next == (if i == fs.len() - 1 {
                None
            } else {
                Some(seqid)
            })
        }
}

/// Copy the bytes of `b` from position `from` up to `to`.
pub fn copy_range(b: &Vec<u8>, from: usize, to: usize) -> (r: Vec<u8>)
    requires
        from <= to <= b@.len(),
    ensures
        r@ == b@.subrange(from as int, to as int),
{
    let _n: usize = b.len();
    let mut out: Vec<u8> = Vec::new();
    let mut k: usize = from;
    while k < to
        invariant
            from <= k <= to <= b@.len(),
            b@.len() <= usize::MAX,
            out@ == b@.subrange(from as int, k as int),
        decreases to - k,
    {
        out.push(b[k]);
        k = k + 1;
        proof {
            assert(out@ =~= b@.subrange(from as int, k as int));
        }
    }
    out
}

/// Slice a serialised payload into a well-formed frame chain.
///
/// Every frame but the last carries exactly `cap` bytes; the last carries
/// the remainder, which is empty only when the whole payload is.  The
/// concatenation of the frame payloads is the input payload, so a restore
/// of the chain returns the payload unchanged.
pub fn slice_frames(
    sender: &Identity,
    recipient: &Recipient,
    seqid: &Identity,
    payload: &Vec<u8>,
    cap: usize,
) -> (r: Vec<Frame>)
    requires
        1 <= cap <= 0xFFFF_FF00,
        payload@.len() + cap < 0x1_0000_0000,
    ensures
        chain_wf(r@, *sender, *recipient, *seqid),
        concat_payloads(r@) == payload@,
        forall|j: int| 0 <= j < r@.len() ==> (#[trigger] r@[j].payload@.len()) <= cap,
        forall|j: int| 0 <= j < r@.len() - 1 ==> (#[trigger] r@[j].payload@.len()) == cap,
        payload@.len() == 0 ==> r@.len() == 1,
        payload@.len() > 0 ==> r@[r@.len() - 1].payload@.len() >= 1,
        forall|j: int| 0 <= j < r@.len() ==> wf_frame(#[trigger] r@[j]),
{
    let total = payload.len();
    let mut out: Vec<Frame> = Vec::new();
    let mut off: usize = 0;
    let mut num: u32 = 0;
    let mut done = false;
    while !done
        invariant
            1 <= cap <= 0xFFFF_FF00,
            total == payload@.len(),
            total + cap < 0x1_0000_0000,
            off <= total,
            !done ==> num as nat == out@.len(),
            done ==> num as nat + 1 == out@.len(),
            num <= off,
            concat_payloads(out@) == payload@.subrange(0, off as int),
            !done ==> (off < total || (off == 0 && out@.len() == 0)),
            done ==> off == total && out@.len() >= 1,
            forall|j: int|
                0 <= j < out@.len() ==> {
                    &&& (#[trigger] out@[j]).sender == *sender
                    &&& out@[j].recipient == *recipient
                    &&& out@[j].seq.seqid == *seqid
                    &&& out@[j].seq.num == j
                    &&& out@[j].payload@.len() <= cap
                },
            forall|j: int|
                0 <= j < out@.len() - 1 ==> (#[trigger] out@[j]).seq.next == Some(*seqid)
                    && out@[j].payload@.len() == cap,
            out@.len() >= 1 ==> out@[out@.len() - 1].seq.next == (if done {
                None
            } else {
                Some(*seqid)
            }),
            out@.len() >= 1 && !done ==> out@[out@.len() - 1].payload@.len() == cap,
            done && total > 0 ==> out@[out@.len() - 1].payload@.len() >= 1,
        decreases (total - off) + (if done { 0int } else { 1int }),
    {
        let end = if total - off > cap {
            off + cap
        } else {
            total
        };
        let is_last = end == total;
        let chunk = copy_range(payload, off, end);
        let frame = Frame {
            sender: *sender,
            recipient: *recipient,
            seq: SeqData {
                seqid: *seqid,
                num,
                next: if is_last {
                    None
                } else {
                    Some(*seqid)
                },
            },
            payload: chunk,
        };
        proof {
            lemma_concat_push(out@, frame);
            assert(payload@.subrange(0, off as int) + payload@.subrange(off as int, end as int)
                =~= payload@.subrange(0, end as int));
        }
        out.push(frame);
        off = end;
        if is_last {
            done = true;
        } else {
            num = num + 1;
        }
    }
    proof {
        assert(payload@.subrange(0, total as int) =~= payload@);
    }
    out
}

/// Restore the payload of a complete chain: concatenate the frame payloads
/// in the order given.
pub fn restore_frames(frames: &Vec<Frame>) -> (r: Vec<u8>)
    requires
        concat_payloads(frames@).len() <= usize::MAX,
    ensures
        r@ == concat_payloads(frames@),
{
    let mut out: Vec<u8> = Vec::new();
    let mut i: usize = 0;
    proof {
        assert(frames@.subrange(0, 0) =~= Seq::<Frame>::empty());
    }
    while i < frames.len()
        invariant
            i <= frames@.len(),
            concat_payloads(frames@).len() <= usize::MAX,
            out@ == concat_payloads(frames@.subrange(0, i as int)),
        decreases frames@.len() - i,
    {
        let f = &frames[i];
        let mut k: usize = 0;
        proof {
            lemma_concat_prefix_len(frames@, i as int + 1);
            assert(frames@.subrange(0, i as int + 1) =~= frames@.subrange(0, i as int).push(
                frames@[i as int],
            ));
            lemma_concat_push(frames@.subrange(0, i as int), frames@[i as int]);
        }
        while k < f.payload.len()
            invariant
                k <= f.payload@.len(),
                out@.len() + f.payload@.len() - k <= usize::MAX,
                out@ == concat_payloads(frames@.subrange(0, i as int)) + f.payload@.subrange(
                    0,
                    k as int,
                ),
            decreases f.payload@.len() - k,
        {
            out.push(f.payload[k]);
            k = k + 1;
            proof {
                assert(out@ =~= concat_payloads(frames@.subrange(0, i as int))
                    + f.payload@.subrange(0, k as int));
            }
        }
        proof {
            assert(f.payload@.subrange(0, f.payload@.len() as int) =~= f.payload@);
        }
        i = i + 1;
    }
    proof {
        assert(frames@.subrange(0, frames@.len() as int) =~= frames@);
    }
    out
}

/// The concatenation of a prefix of a chain is no longer than that of the
/// whole chain.
pub proof fn lemma_concat_prefix_len(fs: Seq<Frame>, i: int)
    requires
        0 <= i <= fs.len(),
    ensures
        concat_payloads(fs.subrange(0, i)).len() <= concat_payloads(fs).len(),
    decreases i,
{
    if i > 0 {
        lemma_concat_prefix_len(fs, i - 1);
        assert(fs.subrange(0, i) =~= fs.subrange(0, i - 1).push(fs[i - 1]));
        lemma_concat_push(fs.subrange(0, i - 1), fs[i - 1]);
        lemma_concat_skip_len(fs, i);
    }
}

/// Dropping leading frames never lengthens the concatenation.
proof fn lemma_concat_skip_len(fs: Seq<Frame>, i: int)
    requires
        0 <= i <= fs.len(),
    ensures
        concat_payloads(fs.subrange(0, i)).len() + concat_payloads(fs.skip(i)).len()
            == concat_payloads(fs).len(),
    decreases i,
{
    if i == 0 {
        assert(fs.subrange(0, 0) =~= Seq::<Frame>::empty());
        assert(fs.skip(0) =~= fs);
    } else {
        lemma_concat_skip_len(fs, i - 1);
        assert(fs.subrange(0, i) =~= fs.subrange(0, i - 1).push(fs[i - 1]));
        lemma_concat_push(fs.subrange(0, i - 1), fs[i - 1]);
        assert(fs.skip(i - 1)[0] == fs[i - 1]);
        assert(fs.skip(i - 1).skip(1) =~= fs.skip(i));
        assert(concat_payloads(fs.skip(i - 1)) == fs[i - 1].payload@ + concat_payloads(
            fs.skip(i),
        ));
    }
}

} // verus!
