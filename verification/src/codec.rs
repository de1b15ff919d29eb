//! Wire codec for netmod envelopes and for the serialised message payload
//! that travels inside a frame chain.
//!
//! Every encoding is self-delimited: a one-byte tag discriminates variants,
//! and variable parts carry a 32-bit big-endian length prefix.  Decoders are
//! proved sound (whatever they accept is the exact encoding of the value they
//! return) and complete (whenever an encoding of a well-formed value starts
//! at the given position, they return that value), which together give the
//! round-trip law and tolerance of trailing padding inside a datagram buffer.

use vstd::prelude::*;

use crate::bytes::{
    be32, be64, lemma_be32_injective, lemma_be64_injective, push_be32, push_be64, read_be32,
    read_be64,
};
use crate::model::{Frame, Identity, Payload, Recipient, SeqData, TimeSig};

verus! {

/// The outer UDP wire container.
#[derive(Clone, Debug)]
pub enum Envelope {
    /// Zero-payload neighbour advert.
    Announce,
    /// Zero-payload acknowledgement of an announce.
    Reply,
    /// Carries one frame.
    Data(Frame),
}

/// The encoding `s` occupies `b` starting at position `i`.
pub open spec fn prefix_at(b: Seq<u8>, i: int, s: Seq<u8>) -> bool {
    &&& 0 <= i
    &&& i + s.len() <= b.len()
    &&& b.subrange(i, i + s.len() as int) == s
}

/// A prefix made of two parts splits into a prefix of each part.
pub proof fn lemma_prefix_split(b: Seq<u8>, i: int, s1: Seq<u8>, s2: Seq<u8>)
    requires
        prefix_at(b, i, s1 + s2),
    ensures
        prefix_at(b, i, s1),
        prefix_at(b, i + s1.len(), s2),
{
    let s = s1 + s2;
    assert(b.subrange(i, i + s1.len() as int) =~= s.subrange(0, s1.len() as int));
    assert(s.subrange(0, s1.len() as int) =~= s1);
    assert(b.subrange(i + s1.len(), i + s1.len() + s2.len()) =~= s.subrange(
        s1.len() as int,
        s.len() as int,
    ));
    assert(s.subrange(s1.len() as int, s.len() as int) =~= s2);
}

/// The 32 bytes of an identity: its four words, big-endian, in order.
pub open spec fn id_bytes(id: Identity) -> Seq<u8> {
    be64(id.w0) + (be64(id.w1) + (be64(id.w2) + be64(id.w3)))
}

/// Recipient encoding: tag 0 plus an identity for unicast, tag 1 for flood.
pub open spec fn rec_bytes(r: Recipient) -> Seq<u8> {
    match r {
        Recipient::User(id) => seq![0u8] + id_bytes(id),
        Recipient::Flood => seq![1u8],
    }
}

/// Optional-identity encoding: tag 0 for none, tag 1 plus the identity.
pub open spec fn opt_id_bytes(o: Option<Identity>) -> Seq<u8> {
    match o {
        None => seq![0u8],
        Some(id) => seq![1u8] + id_bytes(id),
    }
}

/// Optional-timestamp encoding: tag 0 for none, tag 1 plus the word.
pub open spec fn opt_u64_bytes(o: Option<u64>) -> Seq<u8> {
    match o {
        None => seq![0u8],
        Some(x) => seq![1u8] + be64(x),
    }
}

/// Length-prefixed byte blob.
pub open spec fn blob_bytes(p: Seq<u8>) -> Seq<u8> {
    be32(p.len() as u32) + p
}

/// A blob is encodable when its length fits the 32-bit length prefix.
pub open spec fn wf_blob(p: Seq<u8>) -> bool {
    p.len() < 0x1_0000_0000
}

/// The encoding of one frame.
pub open spec fn frame_bytes(f: Frame) -> Seq<u8> {
    id_bytes(f.sender) + (rec_bytes(f.recipient) + (id_bytes(f.seq.seqid) + (be32(f.seq.num)
        + (opt_id_bytes(f.seq.next) + blob_bytes(f.payload@)))))
}

/// A frame is encodable when its payload leaves room for the fixed fields
/// under the envelope's own 32-bit length prefix.
pub open spec fn wf_frame(f: Frame) -> bool {
    f.payload@.len() <= 0xFFFF_FF00
}

/// Time signature encoding: the sent stamp, then the optional receive stamp.
pub open spec fn ts_bytes(t: TimeSig) -> Seq<u8> {
    be64(t.sent) + opt_u64_bytes(t.received)
}

/// The serialised inner payload of a message: application bytes, time
/// signature, signature blob.
pub open spec fn payload_bytes(p: Payload) -> Seq<u8> {
    blob_bytes(p.payload@) + (ts_bytes(p.timesig) + blob_bytes(p.sign@))
}

/// An inner payload is encodable when both blobs fit their length prefixes.
pub open spec fn wf_payload(p: Payload) -> bool {
    wf_blob(p.payload@) && wf_blob(p.sign@)
}

/// The encoding of one envelope: a tag byte, and for data a length-prefixed
/// frame encoding.
pub open spec fn env_bytes(e: Envelope) -> Seq<u8> {
    match e {
        Envelope::Announce => seq![0u8],
        Envelope::Reply => seq![1u8],
        Envelope::Data(f) => seq![2u8] + (be32(frame_bytes(f).len() as u32) + frame_bytes(f)),
    }
}

/// An envelope is encodable when its frame, if any, is.
pub open spec fn wf_env(e: Envelope) -> bool {
    match e {
        Envelope::Data(f) => wf_frame(f),
        _ => true,
    }
}

/// Two adjacent occupied stretches join into one.
pub proof fn lemma_prefix_join(b: Seq<u8>, i: int, m: int, s1: Seq<u8>, s2: Seq<u8>)
    requires
        0 <= i <= m <= b.len(),
        b.subrange(i, m) == s1,
        prefix_at(b, m, s2),
    ensures
        prefix_at(b, i, s1 + s2),
{
    assert(b.subrange(i, m + s2.len() as int) =~= s1 + s2);
}

/// Frames compared field by field, payloads byte for byte.
pub open spec fn frame_feq(a: Frame, f: Frame) -> bool {
    &&& a.sender == f.sender
    &&& a.recipient == f.recipient
    &&& a.seq.seqid == f.seq.seqid
    &&& a.seq.num == f.seq.num
    &&& a.seq.next == f.seq.next
    &&& a.payload@ == f.payload@
}

/// Envelopes compared variant by variant, frames field by field.
pub open spec fn env_feq(a: Envelope, e: Envelope) -> bool {
    match (a, e) {
        (Envelope::Announce, Envelope::Announce) => true,
        (Envelope::Reply, Envelope::Reply) => true,
        (Envelope::Data(af), Envelope::Data(ef)) => frame_feq(af, ef),
        _ => false,
    }
}

/// Payloads compared field by field, blobs byte for byte.
pub open spec fn payload_feq(a: Payload, p: Payload) -> bool {
    &&& a.payload@ == p.payload@
    &&& a.timesig == p.timesig
    &&& a.sign@ == p.sign@
}

/// Two identities with the same encoding are the same identity.
pub proof fn lemma_id_bytes_injective(x: Identity, y: Identity)
    requires
        id_bytes(x) == id_bytes(y),
    ensures
        x == y,
{
    let s = id_bytes(x);
    assert(s.subrange(0, s.len() as int) =~= s);
    assert(prefix_at(s, 0, id_bytes(x)));
    assert(prefix_at(s, 0, id_bytes(y)));
    lemma_prefix_split(s, 0, be64(x.w0), be64(x.w1) + (be64(x.w2) + be64(x.w3)));
    lemma_prefix_split(s, 8, be64(x.w1), be64(x.w2) + be64(x.w3));
    lemma_prefix_split(s, 16, be64(x.w2), be64(x.w3));
    lemma_prefix_split(s, 0, be64(y.w0), be64(y.w1) + (be64(y.w2) + be64(y.w3)));
    lemma_prefix_split(s, 8, be64(y.w1), be64(y.w2) + be64(y.w3));
    lemma_prefix_split(s, 16, be64(y.w2), be64(y.w3));
    lemma_be64_injective(x.w0, y.w0);
    lemma_be64_injective(x.w1, y.w1);
    lemma_be64_injective(x.w2, y.w2);
    lemma_be64_injective(x.w3, y.w3);
}

/// Append the 32 bytes of an identity.
pub fn push_identity(out: &mut Vec<u8>, id: &Identity)
    ensures
        final(out)@ == old(out)@ + id_bytes(*id),
{
    push_be64(out, id.w0);
    push_be64(out, id.w1);
    push_be64(out, id.w2);
    push_be64(out, id.w3);
    proof {
        assert(out@ =~= old(out)@ + id_bytes(*id));
    }
}

/// Append a length-prefixed blob.
pub fn push_blob(out: &mut Vec<u8>, p: &Vec<u8>)
    requires
        wf_blob(p@),
    ensures
        final(out)@ == old(out)@ + blob_bytes(p@),
{
    push_be32(out, p.len() as u32);
    let mut k: usize = 0;
    while k < p.len()
        invariant
            k <= p@.len(),
            wf_blob(p@),
            out@ == old(out)@ + be32(p@.len() as u32) + p@.subrange(0, k as int),
        decreases p@.len() - k,
    {
        out.push(p[k]);
        k = k + 1;
        proof {
            assert(out@ =~= old(out)@ + be32(p@.len() as u32) + p@.subrange(0, k as int));
        }
    }
    proof {
        assert(p@.subrange(0, p@.len() as int) =~= p@);
        assert(out@ =~= old(out)@ + blob_bytes(p@));
    }
}

/// Encode one frame.
pub fn encode_frame(f: &Frame) -> (r: Vec<u8>)
    requires
        wf_frame(*f),
    ensures
        r@ == frame_bytes(*f),
{
    let mut out: Vec<u8> = Vec::new();
    push_identity(&mut out, &f.sender);
    match &f.recipient {
        Recipient::User(id) => {
            out.push(0u8);
            push_identity(&mut out, id);
        }
        Recipient::Flood => {
            out.push(1u8);
        }
    }
    proof {
        assert(out@ =~= id_bytes(f.sender) + rec_bytes(f.recipient));
    }
    push_identity(&mut out, &f.seq.seqid);
    push_be32(&mut out, f.seq.num);
    match &f.seq.next {
        None => {
            out.push(0u8);
        }
        Some(id) => {
            out.push(1u8);
            push_identity(&mut out, id);
        }
    }
    push_blob(&mut out, &f.payload);
    proof {
        assert(out@ =~= frame_bytes(*f));
    }
    out
}

/// Encode one envelope into a self-delimited byte string.
pub fn encode_envelope(e: &Envelope) -> (r: Vec<u8>)
    requires
        wf_env(*e),
    ensures
        r@ == env_bytes(*e),
{
    match e {
        Envelope::Announce => {
            let mut out: Vec<u8> = Vec::new();
            out.push(0u8);
            proof {
                assert(out@ =~= env_bytes(*e));
            }
            out
        }
        Envelope::Reply => {
            let mut out: Vec<u8> = Vec::new();
            out.push(1u8);
            proof {
                assert(out@ =~= env_bytes(*e));
            }
            out
        }
        Envelope::Data(f) => {
            let body = encode_frame(f);
            let mut out: Vec<u8> = Vec::new();
            out.push(2u8);
            push_be32(&mut out, body.len() as u32);
            let mut k: usize = 0;
            while k < body.len()
                invariant
                    k <= body@.len(),
                    body@ == frame_bytes(*f),
                    out@ == seq![2u8] + be32(body@.len() as u32) + body@.subrange(0, k as int),
                decreases body@.len() - k,
            {
                out.push(body[k]);
                k = k + 1;
                proof {
                    assert(out@ =~= seq![2u8] + be32(body@.len() as u32) + body@.subrange(
                        0,
                        k as int,
                    ));
                }
            }
            proof {
                assert(body@.subrange(0, body@.len() as int) =~= body@);
                assert(out@ =~= env_bytes(*e));
            }
            out
        }
    }
}

/// Read the identity whose 32 bytes start at position `i`.
pub fn read_identity(b: &Vec<u8>, i: usize) -> (id: Identity)
    requires
        i + 32 <= b@.len(),
    ensures
        prefix_at(b@, i as int, id_bytes(id)),
        forall|v: Identity| prefix_at(b@, i as int, id_bytes(v)) ==> v == id,
{
    let _n: usize = b.len();
    let w0 = read_be64(b, i);
    let w1 = read_be64(b, i + 8);
    let w2 = read_be64(b, i + 16);
    let w3 = read_be64(b, i + 24);
    let id = Identity { w0, w1, w2, w3 };
    proof {
        let ii = i as int;
        assert(b@.subrange(ii, ii + 32) =~= id_bytes(id));
        assert forall|v: Identity| prefix_at(b@, ii, id_bytes(v)) implies v == id by {
            assert(id_bytes(v) == b@.subrange(ii, ii + 32));
            lemma_id_bytes_injective(v, id);
        }
    }
    id
}

/// Decode a recipient starting at position `i`.
pub fn decode_recipient(b: &Vec<u8>, i: usize) -> (r: Option<(Recipient, usize)>)
    requires
        i <= b@.len(),
    ensures
        r matches Some(p) ==> i <= p.1 <= b@.len() && b@.subrange(i as int, p.1 as int)
            == rec_bytes(p.0),
        forall|v: Recipient|
            prefix_at(b@, i as int, rec_bytes(v)) ==> (r matches Some(p) && p.0 == v && p.1 == i
                + rec_bytes(v).len()),
{
    let n = b.len();
    if i >= n {
        proof {
            assert forall|v: Recipient| !prefix_at(b@, i as int, rec_bytes(v)) by {
                assert(rec_bytes(v).len() >= 1);
            }
        }
        return None;
    }
    let tag = b[i];
    if tag == 0 {
        if n - i < 33 {
            proof {
                assert forall|v: Recipient| !prefix_at(b@, i as int, rec_bytes(v)) by {
                    if prefix_at(b@, i as int, rec_bytes(v)) {
                        assert(b@[i as int] == rec_bytes(v)[0]);
                        match v {
                            Recipient::User(_) => {
                                assert(rec_bytes(v).len() == 33);
                            }
                            Recipient::Flood => {
                                assert(rec_bytes(v)[0] == 1u8);
                            }
                        }
                    }
                }
            }
            return None;
        }
        let id = read_identity(b, i + 1);
        let out = Recipient::User(id);
        proof {
            let ii = i as int;
            assert(b@.subrange(ii, ii + 33) =~= seq![0u8] + id_bytes(id));
            assert forall|v: Recipient| prefix_at(b@, ii, rec_bytes(v)) implies v == out by {
                assert(b@[ii] == rec_bytes(v)[0]);
                match v {
                    Recipient::User(w) => {
                        lemma_prefix_split(b@, ii, seq![0u8], id_bytes(w));
                        assert(prefix_at(b@, ii + 1, id_bytes(w)));
                    }
                    Recipient::Flood => {
                        assert(rec_bytes(v)[0] == 1u8);
                    }
                }
            }
        }
        Some((out, i + 33))
    } else if tag == 1 {
        proof {
            let ii = i as int;
            assert(b@.subrange(ii, ii + 1) =~= seq![1u8]);
            assert forall|v: Recipient| prefix_at(b@, ii, rec_bytes(v)) implies v
                == Recipient::Flood by {
                assert(b@[ii] == rec_bytes(v)[0]);
                match v {
                    Recipient::User(_) => {
                        assert(rec_bytes(v)[0] == 0u8);
                    }
                    Recipient::Flood => {}
                }
            }
        }
        Some((Recipient::Flood, i + 1))
    } else {
        proof {
            assert forall|v: Recipient| !prefix_at(b@, i as int, rec_bytes(v)) by {
                if prefix_at(b@, i as int, rec_bytes(v)) {
                    assert(b@[i as int] == rec_bytes(v)[0]);
                    match v {
                        Recipient::User(_) => {
                            assert(rec_bytes(v)[0] == 0u8);
                        }
                        Recipient::Flood => {
                            assert(rec_bytes(v)[0] == 1u8);
                        }
                    }
                }
            }
        }
        None
    }
}

/// Decode an optional identity starting at position `i`.
pub fn decode_opt_id(b: &Vec<u8>, i: usize) -> (r: Option<(Option<Identity>, usize)>)
    requires
        i <= b@.len(),
    ensures
        r matches Some(p) ==> i <= p.1 <= b@.len() && b@.subrange(i as int, p.1 as int)
            == opt_id_bytes(p.0),
        forall|v: Option<Identity>|
            prefix_at(b@, i as int, opt_id_bytes(v)) ==> (r matches Some(p) && p.0 == v && p.1 == i
                + opt_id_bytes(v).len()),
{
    let n = b.len();
    if i >= n {
        proof {
            assert forall|v: Option<Identity>| !prefix_at(b@, i as int, opt_id_bytes(v)) by {
                assert(opt_id_bytes(v).len() >= 1);
            }
        }
        return None;
    }
    let tag = b[i];
    if tag == 0 {
        proof {
            let ii = i as int;
            assert(b@.subrange(ii, ii + 1) =~= seq![0u8]);
            assert forall|v: Option<Identity>| prefix_at(b@, ii, opt_id_bytes(v)) implies v
                == None::<Identity> by {
                assert(b@[ii] == opt_id_bytes(v)[0]);
                match v {
                    Some(_) => {
                        assert(opt_id_bytes(v)[0] == 1u8);
                    }
                    None => {}
                }
            }
        }
        Some((None, i + 1))
    } else if tag == 1 {
        if n - i < 33 {
            proof {
                assert forall|v: Option<Identity>| !prefix_at(b@, i as int, opt_id_bytes(v)) by {
                    if prefix_at(b@, i as int, opt_id_bytes(v)) {
                        assert(b@[i as int] == opt_id_bytes(v)[0]);
                        match v {
                            Some(_) => {
                                assert(opt_id_bytes(v).len() == 33);
                            }
                            None => {
                                assert(opt_id_bytes(v)[0] == 0u8);
                            }
                        }
                    }
                }
            }
            return None;
        }
        let id = read_identity(b, i + 1);
        let out = Some(id);
        proof {
            let ii = i as int;
            assert(b@.subrange(ii, ii + 33) =~= seq![1u8] + id_bytes(id));
            assert forall|v: Option<Identity>| prefix_at(b@, ii, opt_id_bytes(v)) implies v
                == out by {
                assert(b@[ii] == opt_id_bytes(v)[0]);
                match v {
                    Some(w) => {
                        lemma_prefix_split(b@, ii, seq![1u8], id_bytes(w));
                        assert(prefix_at(b@, ii + 1, id_bytes(w)));
                    }
                    None => {
                        assert(opt_id_bytes(v)[0] == 0u8);
                    }
                }
            }
        }
        Some((out, i + 33))
    } else {
        proof {
            assert forall|v: Option<Identity>| !prefix_at(b@, i as int, opt_id_bytes(v)) by {
                if prefix_at(b@, i as int, opt_id_bytes(v)) {
                    assert(b@[i as int] == opt_id_bytes(v)[0]);
                    match v {
                        Some(_) => {
                            assert(opt_id_bytes(v)[0] == 1u8);
                        }
                        None => {
                            assert(opt_id_bytes(v)[0] == 0u8);
                        }
                    }
                }
            }
        }
        None
    }
}

/// Decode a length-prefixed blob starting at position `i`.
pub fn decode_blob(b: &Vec<u8>, i: usize) -> (r: Option<(Vec<u8>, usize)>)
    requires
        i <= b@.len(),
    ensures
        r matches Some(p) ==> i <= p.1 <= b@.len() && b@.subrange(i as int, p.1 as int)
            == blob_bytes(p.0@) && wf_blob(p.0@),
        forall|v: Seq<u8>|
            wf_blob(v) && prefix_at(b@, i as int, blob_bytes(v)) ==> (r matches Some(p) && p.0@
                == v && p.1 == i + blob_bytes(v).len()),
{
    let n = b.len();
    if n - i < 4 {
        proof {
            assert forall|v: Seq<u8>| wf_blob(v) implies !prefix_at(
                b@,
                i as int,
                blob_bytes(v),
            ) by {
                assert(blob_bytes(v).len() >= 4);
            }
        }
        return None;
    }
    let len32 = read_be32(b, i);
    let len = len32 as usize;
    if n - i - 4 < len {
        proof {
            assert forall|v: Seq<u8>|
                wf_blob(v) && prefix_at(b@, i as int, blob_bytes(v)) implies false by {
                lemma_prefix_split(b@, i as int, be32(v.len() as u32), v);
                assert(be32(v.len() as u32) == b@.subrange(i as int, i as int + 4));
                lemma_be32_injective(v.len() as u32, len32);
            }
        }
        return None;
    }
    let mut out: Vec<u8> = Vec::new();
    let mut k: usize = 0;
    while k < len
        invariant
            k <= len,
            i + 4 + len <= b@.len(),
            b@.len() <= usize::MAX,
            out@ == b@.subrange(i as int + 4, i as int + 4 + k as int),
        decreases len - k,
    {
        out.push(b[i + 4 + k]);
        k = k + 1;
        proof {
            assert(out@ =~= b@.subrange(i as int + 4, i as int + 4 + k as int));
        }
    }
    proof {
        let ii = i as int;
        assert(out@.len() == len as int);
        assert(be32(out@.len() as u32) == be32(len32)) by {
            assert(out@.len() as u32 == len32);
        }
        assert(b@.subrange(ii, ii + 4 + len as int) =~= blob_bytes(out@));
        assert forall|v: Seq<u8>|
            wf_blob(v) && prefix_at(b@, ii, blob_bytes(v)) implies v == out@ && i
            + blob_bytes(v).len() == i + 4 + len by {
            lemma_prefix_split(b@, ii, be32(v.len() as u32), v);
            assert(be32(v.len() as u32) == b@.subrange(ii, ii + 4));
            lemma_be32_injective(v.len() as u32, len32);
            assert(v.len() == len as int);
            assert(v == b@.subrange(ii + 4, ii + 4 + len as int));
        }
    }
    Some((out, i + 4 + len))
}

/// Decode an optional timestamp starting at position `i`.
pub fn decode_opt_u64(b: &Vec<u8>, i: usize) -> (r: Option<(Option<u64>, usize)>)
    requires
        i <= b@.len(),
    ensures
        r matches Some(p) ==> i <= p.1 <= b@.len() && b@.subrange(i as int, p.1 as int)
            == opt_u64_bytes(p.0),
        forall|v: Option<u64>|
            prefix_at(b@, i as int, opt_u64_bytes(v)) ==> (r matches Some(p) && p.0 == v && p.1
                == i + opt_u64_bytes(v).len()),
{
    let n = b.len();
    if i >= n {
        proof {
            assert forall|v: Option<u64>| !prefix_at(b@, i as int, opt_u64_bytes(v)) by {
                assert(opt_u64_bytes(v).len() >= 1);
            }
        }
        return None;
    }
    let tag = b[i];
    if tag == 0 {
        proof {
            let ii = i as int;
            assert(b@.subrange(ii, ii + 1) =~= seq![0u8]);
            assert forall|v: Option<u64>| prefix_at(b@, ii, opt_u64_bytes(v)) implies v
                == None::<u64> by {
                assert(b@[ii] == opt_u64_bytes(v)[0]);
                match v {
                    Some(_) => {
                        assert(opt_u64_bytes(v)[0] == 1u8);
                    }
                    None => {}
                }
            }
        }
        Some((None, i + 1))
    } else if tag == 1 {
        if n - i < 9 {
            proof {
                assert forall|v: Option<u64>| !prefix_at(b@, i as int, opt_u64_bytes(v)) by {
                    if prefix_at(b@, i as int, opt_u64_bytes(v)) {
                        assert(b@[i as int] == opt_u64_bytes(v)[0]);
                        match v {
                            Some(_) => {
                                assert(opt_u64_bytes(v).len() == 9);
                            }
                            None => {
                                assert(opt_u64_bytes(v)[0] == 0u8);
                            }
                        }
                    }
                }
            }
            return None;
        }
        let x = read_be64(b, i + 1);
        let out = Some(x);
        proof {
            let ii = i as int;
            assert(b@.subrange(ii, ii + 9) =~= seq![1u8] + be64(x));
            assert forall|v: Option<u64>| prefix_at(b@, ii, opt_u64_bytes(v)) implies v == out by {
                assert(b@[ii] == opt_u64_bytes(v)[0]);
                match v {
                    Some(w) => {
                        lemma_prefix_split(b@, ii, seq![1u8], be64(w));
                        assert(be64(w) == b@.subrange(ii + 1, ii + 9));
                        lemma_be64_injective(w, x);
                    }
                    None => {
                        assert(opt_u64_bytes(v)[0] == 0u8);
                    }
                }
            }
        }
        Some((out, i + 9))
    } else {
        proof {
            assert forall|v: Option<u64>| !prefix_at(b@, i as int, opt_u64_bytes(v)) by {
                if prefix_at(b@, i as int, opt_u64_bytes(v)) {
                    assert(b@[i as int] == opt_u64_bytes(v)[0]);
                    match v {
                        Some(_) => {
                            assert(opt_u64_bytes(v)[0] == 1u8);
                        }
                        None => {
                            assert(opt_u64_bytes(v)[0] == 0u8);
                        }
                    }
                }
            }
        }
        None
    }
}

/// The leading half of a frame encoding.
pub open spec fn frame_head_bytes(
    sender: Identity,
    recipient: Recipient,
    seqid: Identity,
    num: u32,
) -> Seq<u8> {
    id_bytes(sender) + (rec_bytes(recipient) + (id_bytes(seqid) + be32(num)))
}

/// The trailing half of a frame encoding.
pub open spec fn frame_tail_bytes(next: Option<Identity>, payload: Seq<u8>) -> Seq<u8> {
    opt_id_bytes(next) + blob_bytes(payload)
}

/// A frame encoding is its two halves in order.
proof fn lemma_frame_decomp(f: Frame)
    ensures
        frame_bytes(f) == frame_head_bytes(f.sender, f.recipient, f.seq.seqid, f.seq.num)
            + frame_tail_bytes(f.seq.next, f.payload@),
{
    assert(frame_bytes(f) =~= frame_head_bytes(f.sender, f.recipient, f.seq.seqid, f.seq.num)
        + frame_tail_bytes(f.seq.next, f.payload@));
}

/// Decode the leading half of a frame.
#[verifier::rlimit(60)]
fn decode_frame_head(b: &Vec<u8>, i: usize) -> (r: Option<
    ((Identity, Recipient, Identity, u32), usize),
>)
    requires
        i <= b@.len(),
    ensures
        r matches Some(p) ==> i <= p.1 <= b@.len() && b@.subrange(i as int, p.1 as int)
            == frame_head_bytes(p.0.0, p.0.1, p.0.2, p.0.3),
        forall|s: Identity, rc: Recipient, q: Identity, n: u32|
            #[trigger] prefix_at(b@, i as int, frame_head_bytes(s, rc, q, n)) ==> (r matches Some(
                p,
            ) && p.0.0 == s && p.0.1 == rc && p.0.2 == q && p.0.3 == n && p.1 == i
                + frame_head_bytes(s, rc, q, n).len()),
{
    let n0 = b.len();
    let ghost gi: int = i as int;
    if n0 - i < 32 {
        proof {
            assert forall|s: Identity, rc: Recipient, q: Identity, n: u32|
                prefix_at(b@, gi, frame_head_bytes(s, rc, q, n)) implies false by {
                lemma_prefix_split(
                    b@,
                    gi,
                    id_bytes(s),
                    rec_bytes(rc) + (id_bytes(q) + be32(n)),
                );
            }
        }
        return None;
    }
    let sender = read_identity(b, i);
    let rec = decode_recipient(b, i + 32);
    let (recipient, j1) = match rec {
        Some(p) => p,
        None => {
            proof {
                assert forall|s: Identity, rc: Recipient, q: Identity, n: u32|
                    prefix_at(b@, gi, frame_head_bytes(s, rc, q, n)) implies false by {
                    lemma_prefix_split(
                        b@,
                        gi,
                        id_bytes(s),
                        rec_bytes(rc) + (id_bytes(q) + be32(n)),
                    );
                    lemma_prefix_split(b@, gi + 32, rec_bytes(rc), id_bytes(q) + be32(n));
                }
            }
            return None;
        }
    };
    if n0 - j1 < 36 {
        proof {
            assert forall|s: Identity, rc: Recipient, q: Identity, n: u32|
                prefix_at(b@, gi, frame_head_bytes(s, rc, q, n)) implies false by {
                lemma_prefix_split(
                    b@,
                    gi,
                    id_bytes(s),
                    rec_bytes(rc) + (id_bytes(q) + be32(n)),
                );
                lemma_prefix_split(b@, gi + 32, rec_bytes(rc), id_bytes(q) + be32(n));
                assert(rc == recipient && j1 == i + 32 + rec_bytes(rc).len());
                lemma_prefix_split(b@, j1 as int, id_bytes(q), be32(n));
            }
        }
        return None;
    }
    let seqid = read_identity(b, j1);
    let num = read_be32(b, j1 + 32);
    proof {
        assert(prefix_at(b@, j1 as int + 32, be32(num))) by {
            assert(b@.subrange(j1 as int + 32, j1 as int + 36) == be32(num));
        }
        lemma_prefix_join(b@, j1 as int, j1 as int + 32, id_bytes(seqid), be32(num));
        lemma_prefix_join(
            b@,
            gi + 32,
            j1 as int,
            rec_bytes(recipient),
            id_bytes(seqid) + be32(num),
        );
        lemma_prefix_join(
            b@,
            gi,
            gi + 32,
            id_bytes(sender),
            rec_bytes(recipient) + (id_bytes(seqid) + be32(num)),
        );
        assert(b@.subrange(gi, j1 as int + 36) == frame_head_bytes(
            sender,
            recipient,
            seqid,
            num,
        ));
        assert forall|s: Identity, rc: Recipient, q: Identity, n: u32|
            prefix_at(b@, gi, frame_head_bytes(s, rc, q, n)) implies (s == sender && rc
            == recipient && q == seqid && n == num && j1 + 36 == i + frame_head_bytes(
            s,
            rc,
            q,
            n,
        ).len()) by {
            lemma_prefix_split(b@, gi, id_bytes(s), rec_bytes(rc) + (id_bytes(q) + be32(n)));
            lemma_prefix_split(b@, gi + 32, rec_bytes(rc), id_bytes(q) + be32(n));
            assert(rc == recipient && j1 == i + 32 + rec_bytes(rc).len());
            lemma_prefix_split(b@, j1 as int, id_bytes(q), be32(n));
            assert(q == seqid);
            assert(be32(n) == b@.subrange(j1 as int + 32, j1 as int + 36));
            lemma_be32_injective(n, num);
        }
    }
    Some(((sender, recipient, seqid, num), j1 + 36))
}

/// Decode the trailing half of a frame.
#[verifier::rlimit(60)]
fn decode_frame_tail(b: &Vec<u8>, i: usize) -> (r: Option<((Option<Identity>, Vec<u8>), usize)>)
    requires
        i <= b@.len(),
    ensures
        r matches Some(p) ==> i <= p.1 <= b@.len() && b@.subrange(i as int, p.1 as int)
            == frame_tail_bytes(p.0.0, p.0.1@) && p.0.1@.len() <= 0xFFFF_FF00,
        forall|nx: Option<Identity>, payload: Seq<u8>|
            payload.len() <= 0xFFFF_FF00 && #[trigger] prefix_at(
                b@,
                i as int,
                frame_tail_bytes(nx, payload),
            ) ==> (r matches Some(p) && p.0.0 == nx && p.0.1@ == payload && p.1 == i
                + frame_tail_bytes(nx, payload).len()),
{
    let ghost gi: int = i as int;
    let nxr = decode_opt_id(b, i);
    let (next, j1) = match nxr {
        Some(p) => p,
        None => {
            proof {
                assert forall|nx: Option<Identity>, payload: Seq<u8>|
                    payload.len() <= 0xFFFF_FF00 && prefix_at(
                        b@,
                        gi,
                        frame_tail_bytes(nx, payload),
                    ) implies false by {
                    lemma_prefix_split(b@, gi, opt_id_bytes(nx), blob_bytes(payload));
                }
            }
            return None;
        }
    };
    let pb = decode_blob(b, j1);
    let (payload, j2) = match pb {
        Some(p) => p,
        None => {
            proof {
                assert forall|nx: Option<Identity>, payload2: Seq<u8>|
                    payload2.len() <= 0xFFFF_FF00 && prefix_at(
                        b@,
                        gi,
                        frame_tail_bytes(nx, payload2),
                    ) implies false by {
                    lemma_prefix_split(b@, gi, opt_id_bytes(nx), blob_bytes(payload2));
                    assert(wf_blob(payload2));
                    assert(nx == next && j1 == i + opt_id_bytes(nx).len());
                    assert(prefix_at(b@, j1 as int, blob_bytes(payload2)));
                }
            }
            return None;
        }
    };
    if payload.len() > 0xFFFF_FF00 {
        proof {
            assert forall|nx: Option<Identity>, payload2: Seq<u8>|
                payload2.len() <= 0xFFFF_FF00 && prefix_at(b@, gi, frame_tail_bytes(nx, payload2))
                implies false by {
                lemma_prefix_split(b@, gi, opt_id_bytes(nx), blob_bytes(payload2));
                assert(wf_blob(payload2));
                assert(nx == next && j1 == i + opt_id_bytes(nx).len());
                assert(prefix_at(b@, j1 as int, blob_bytes(payload2)));
                assert(payload2 == payload@);
            }
        }
        return None;
    }
    proof {
        assert(prefix_at(b@, j1 as int, blob_bytes(payload@)));
        lemma_prefix_join(b@, gi, j1 as int, opt_id_bytes(next), blob_bytes(payload@));
        assert(b@.subrange(gi, j2 as int) == frame_tail_bytes(next, payload@));
        assert forall|nx: Option<Identity>, payload2: Seq<u8>|
            payload2.len() <= 0xFFFF_FF00 && prefix_at(b@, gi, frame_tail_bytes(nx, payload2))
            implies (nx == next && payload2 == payload@ && j2 == i + frame_tail_bytes(
            nx,
            payload2,
        ).len()) by {
            lemma_prefix_split(b@, gi, opt_id_bytes(nx), blob_bytes(payload2));
            assert(wf_blob(payload2));
            assert(nx == next && j1 == i + opt_id_bytes(nx).len());
            assert(prefix_at(b@, j1 as int, blob_bytes(payload2)));
            assert(payload2 == payload@ && j2 == j1 + blob_bytes(payload2).len());
        }
    }
    Some(((next, payload), j2))
}

/// Decode a frame starting at position `i`.
#[verifier::rlimit(60)]
pub fn decode_frame(b: &Vec<u8>, i: usize) -> (r: Option<(Frame, usize)>)
    requires
        i <= b@.len(),
    ensures
        r matches Some(p) ==> i <= p.1 <= b@.len() && b@.subrange(i as int, p.1 as int)
            == frame_bytes(p.0) && wf_frame(p.0),
        forall|f: Frame|
            wf_frame(f) && prefix_at(b@, i as int, frame_bytes(f)) ==> (r matches Some(p)
                && frame_feq(p.0, f) && p.1 == i + frame_bytes(f).len()),
{
    let ghost gi: int = i as int;
    let head = decode_frame_head(b, i);
    let (h, j1) = match head {
        Some(p) => p,
        None => {
            proof {
                assert forall|f: Frame|
                    wf_frame(f) && prefix_at(b@, gi, frame_bytes(f)) implies false by {
                    lemma_frame_decomp(f);
                    lemma_prefix_split(
                        b@,
                        gi,
                        frame_head_bytes(f.sender, f.recipient, f.seq.seqid, f.seq.num),
                        frame_tail_bytes(f.seq.next, f.payload@),
                    );
                }
            }
            return None;
        }
    };
    let (sender, recipient, seqid, num) = h;
    let tail = decode_frame_tail(b, j1);
    let (t, j2) = match tail {
        Some(p) => p,
        None => {
            proof {
                assert forall|f: Frame|
                    wf_frame(f) && prefix_at(b@, gi, frame_bytes(f)) implies false by {
                    lemma_frame_decomp(f);
                    lemma_prefix_split(
                        b@,
                        gi,
                        frame_head_bytes(f.sender, f.recipient, f.seq.seqid, f.seq.num),
                        frame_tail_bytes(f.seq.next, f.payload@),
                    );
                    assert(j1 == i + frame_head_bytes(
                        f.sender,
                        f.recipient,
                        f.seq.seqid,
                        f.seq.num,
                    ).len());
                    assert(prefix_at(b@, j1 as int, frame_tail_bytes(f.seq.next, f.payload@)));
                }
            }
            return None;
        }
    };
    let (next, payload) = t;
    let g = Frame { sender, recipient, seq: SeqData { seqid, num, next }, payload };
    proof {
        lemma_frame_decomp(g);
        assert(prefix_at(b@, j1 as int, frame_tail_bytes(g.seq.next, g.payload@)));
        lemma_prefix_join(
            b@,
            gi,
            j1 as int,
            frame_head_bytes(g.sender, g.recipient, g.seq.seqid, g.seq.num),
            frame_tail_bytes(g.seq.next, g.payload@),
        );
        assert(b@.subrange(gi, j2 as int) == frame_bytes(g));
        assert forall|f: Frame|
            wf_frame(f) && prefix_at(b@, gi, frame_bytes(f)) implies (frame_feq(g, f) && j2 == i
            + frame_bytes(f).len()) by {
            lemma_frame_decomp(f);
            lemma_prefix_split(
                b@,
                gi,
                frame_head_bytes(f.sender, f.recipient, f.seq.seqid, f.seq.num),
                frame_tail_bytes(f.seq.next, f.payload@),
            );
            assert(f.sender == sender && f.recipient == recipient && f.seq.seqid == seqid
                && f.seq.num == num && j1 == i + frame_head_bytes(
                f.sender,
                f.recipient,
                f.seq.seqid,
                f.seq.num,
            ).len());
            assert(prefix_at(b@, j1 as int, frame_tail_bytes(f.seq.next, f.payload@)));
            assert(f.seq.next == next && f.payload@ == payload@ && j2 == j1 + frame_tail_bytes(
                f.seq.next,
                f.payload@,
            ).len());
        }
    }
    Some((g, j2))
}

/// Decode an envelope starting at position `i`.  Trailing bytes after the
/// envelope, such as padding inside a datagram buffer, are ignored.
/// Lengths of the parts of a frame encoding.
pub proof fn lemma_frame_bytes_len(f: Frame)
    ensures
        frame_bytes(f).len() == 72 + rec_bytes(f.recipient).len() + opt_id_bytes(
            f.seq.next,
        ).len() + f.payload@.len(),
        1 <= rec_bytes(f.recipient).len() <= 33,
        1 <= opt_id_bytes(f.seq.next).len() <= 33,
{
    match f.recipient {
        Recipient::User(_) => {}
        Recipient::Flood => {}
    }
    match f.seq.next {
        Some(_) => {}
        None => {}
    }
}

/// Where the parts of a data envelope lie when one starts at position `i`
/// under a data tag byte.
proof fn lemma_env_data_parts(b: Seq<u8>, i: int, e: Envelope)
    requires
        wf_env(e),
        prefix_at(b, i, env_bytes(e)),
        0 <= i < b.len(),
        b[i] == 2u8,
    ensures
        e matches Envelope::Data(g) ==> wf_frame(g) && prefix_at(
            b,
            i + 1,
            be32(frame_bytes(g).len() as u32),
        ) && prefix_at(b, i + 5, frame_bytes(g)) && env_bytes(e).len() == 5 + frame_bytes(g).len()
            && frame_bytes(g).len() < 0x1_0000_0000,
        e is Data,
{
    assert(b[i] == env_bytes(e)[0]);
    match e {
        Envelope::Announce => {
            assert(env_bytes(e)[0] == 0u8);
        }
        Envelope::Reply => {
            assert(env_bytes(e)[0] == 1u8);
        }
        Envelope::Data(g) => {
            lemma_frame_bytes_len(g);
            lemma_prefix_split(b, i, seq![2u8], be32(frame_bytes(g).len() as u32) + frame_bytes(g));
            lemma_prefix_split(b, i + 1, be32(frame_bytes(g).len() as u32), frame_bytes(g));
        }
    }
}

/// Decode the body of a data envelope: a length prefix, then one frame that
/// must fill it exactly.
#[verifier::rlimit(60)]
fn decode_data_body(b: &Vec<u8>, i: usize) -> (r: Option<(Frame, usize)>)
    requires
        i < b@.len(),
    ensures
        r matches Some(p) ==> i + 5 <= p.1 <= b@.len() && wf_frame(p.0) && b@.subrange(
            i as int + 5,
            p.1 as int,
        ) == frame_bytes(p.0) && b@.subrange(i as int + 1, i as int + 5) == be32(
            frame_bytes(p.0).len() as u32,
        ),
        r is None ==> forall|g: Frame|
            wf_frame(g) && prefix_at(b@, i as int + 1, be32(frame_bytes(g).len() as u32))
                && prefix_at(b@, i as int + 5, frame_bytes(g)) ==> false,
        r matches Some(p) ==> forall|g: Frame|
            wf_frame(g) && prefix_at(b@, i as int + 1, be32(frame_bytes(g).len() as u32))
                && prefix_at(b@, i as int + 5, frame_bytes(g)) ==> frame_feq(p.0, g) && p.1 == i
                + 5 + frame_bytes(g).len(),
{
    let n = b.len();
    let ghost ii: int = i as int;
    if n - i < 5 {
        return None;
    }
    let len32 = read_be32(b, i + 1);
    let flen = len32 as usize;
    if n - i - 5 < flen {
        proof {
            assert forall|g: Frame|
                wf_frame(g) && prefix_at(b@, ii + 1, be32(frame_bytes(g).len() as u32))
                    && prefix_at(b@, ii + 5, frame_bytes(g)) implies false by {
                lemma_frame_bytes_len(g);
                assert(be32(frame_bytes(g).len() as u32) == b@.subrange(ii + 1, ii + 5));
                lemma_be32_injective(frame_bytes(g).len() as u32, len32);
                assert(frame_bytes(g).len() == flen);
            }
        }
        return None;
    }
    let fr = decode_frame(b, i + 5);
    let (f, j) = match fr {
        Some(p) => p,
        None => {
            proof {
                assert forall|g: Frame|
                    wf_frame(g) && prefix_at(b@, ii + 1, be32(frame_bytes(g).len() as u32))
                        && prefix_at(b@, ii + 5, frame_bytes(g)) implies false by {}
            }
            return None;
        }
    };
    if j - (i + 5) != flen {
        proof {
            assert forall|g: Frame|
                wf_frame(g) && prefix_at(b@, ii + 1, be32(frame_bytes(g).len() as u32))
                    && prefix_at(b@, ii + 5, frame_bytes(g)) implies false by {
                lemma_frame_bytes_len(g);
                assert(be32(frame_bytes(g).len() as u32) == b@.subrange(ii + 1, ii + 5));
                lemma_be32_injective(frame_bytes(g).len() as u32, len32);
                assert(frame_bytes(g).len() == flen);
                assert(j == ii + 5 + frame_bytes(g).len());
            }
        }
        return None;
    }
    proof {
        assert(frame_bytes(f).len() == flen);
        assert(be32(frame_bytes(f).len() as u32) == be32(len32)) by {
            assert(frame_bytes(f).len() as u32 == len32);
        }
    }
    Some((f, j))
}

/// Decode the data arm of an envelope, standing on a data tag byte.
#[verifier::rlimit(60)]
fn decode_env_data(b: &Vec<u8>, i: usize) -> (r: Option<(Envelope, usize)>)
    requires
        i < b@.len(),
        b@[i as int] == 2u8,
    ensures
        r matches Some(p) ==> i <= p.1 <= b@.len() && b@.subrange(i as int, p.1 as int)
            == env_bytes(p.0) && wf_env(p.0),
        forall|e: Envelope|
            wf_env(e) && prefix_at(b@, i as int, env_bytes(e)) ==> (r matches Some(p) && env_feq(
                p.0,
                e,
            ) && p.1 == i + env_bytes(e).len()),
{
    let ghost ii: int = i as int;
    let body = decode_data_body(b, i);
    match body {
        Some((f, j)) => {
            proof {
                assert(b@.subrange(ii, ii + 1) =~= seq![2u8]);
                lemma_prefix_join(
                    b@,
                    ii + 1,
                    ii + 5,
                    be32(frame_bytes(f).len() as u32),
                    frame_bytes(f),
                );
                lemma_prefix_join(
                    b@,
                    ii,
                    ii + 1,
                    seq![2u8],
                    be32(frame_bytes(f).len() as u32) + frame_bytes(f),
                );
                assert(env_bytes(Envelope::Data(f)) == seq![2u8] + (be32(
                    frame_bytes(f).len() as u32,
                ) + frame_bytes(f)));
                assert(b@.subrange(ii, j as int) == env_bytes(Envelope::Data(f)));
                assert forall|e: Envelope|
                    wf_env(e) && prefix_at(b@, ii, env_bytes(e)) implies env_feq(
                    Envelope::Data(f),
                    e,
                ) && j == ii + env_bytes(e).len() by {
                    lemma_env_data_parts(b@, ii, e);
                    match e {
                        Envelope::Data(g) => {
                            assert(prefix_at(b@, ii + 5, frame_bytes(g)));
                            assert(frame_feq(f, g));
                            assert(j == ii + 5 + frame_bytes(g).len());
                        }
                        _ => {}
                    }
                }
            }
            Some((Envelope::Data(f), j))
        }
        None => {
            proof {
                assert forall|e: Envelope|
                    wf_env(e) && prefix_at(b@, ii, env_bytes(e)) implies false by {
                    lemma_env_data_parts(b@, ii, e);
                    match e {
                        Envelope::Data(g) => {
                            assert(prefix_at(b@, ii + 1, be32(frame_bytes(g).len() as u32)));
                            assert(prefix_at(b@, ii + 5, frame_bytes(g)));
                        }
                        _ => {}
                    }
                }
            }
            None
        }
    }
}

/// Decode an envelope starting at position `i`.  Trailing bytes after the
/// envelope, such as padding inside a datagram buffer, are ignored.
pub fn decode_envelope(b: &Vec<u8>, i: usize) -> (r: Option<(Envelope, usize)>)
    requires
        i <= b@.len(),
    ensures
        r matches Some(p) ==> i <= p.1 <= b@.len() && b@.subrange(i as int, p.1 as int)
            == env_bytes(p.0) && wf_env(p.0),
        forall|e: Envelope|
            wf_env(e) && prefix_at(b@, i as int, env_bytes(e)) ==> (r matches Some(p) && env_feq(
                p.0,
                e,
            ) && p.1 == i + env_bytes(e).len()),
{
    let n = b.len();
    let ghost ii: int = i as int;
    if i >= n {
        proof {
            assert forall|e: Envelope| !prefix_at(b@, ii, env_bytes(e)) by {
                assert(env_bytes(e).len() >= 1);
            }
        }
        return None;
    }
    let tag = b[i];
    if tag == 0 {
        proof {
            assert(b@.subrange(ii, ii + 1) =~= seq![0u8]);
            assert forall|e: Envelope|
                wf_env(e) && prefix_at(b@, ii, env_bytes(e)) implies env_feq(
                Envelope::Announce,
                e,
            ) && 1 == env_bytes(e).len() by {
                assert(b@[ii] == env_bytes(e)[0]);
                match e {
                    Envelope::Announce => {}
                    Envelope::Reply => {
                        assert(env_bytes(e)[0] == 1u8);
                    }
                    Envelope::Data(_) => {
                        assert(env_bytes(e)[0] == 2u8);
                    }
                }
            }
        }
        Some((Envelope::Announce, i + 1))
    } else if tag == 1 {
        proof {
            assert(b@.subrange(ii, ii + 1) =~= seq![1u8]);
            assert forall|e: Envelope|
                wf_env(e) && prefix_at(b@, ii, env_bytes(e)) implies env_feq(
                Envelope::Reply,
                e,
            ) && 1 == env_bytes(e).len() by {
                assert(b@[ii] == env_bytes(e)[0]);
                match e {
                    Envelope::Announce => {
                        assert(env_bytes(e)[0] == 0u8);
                    }
                    Envelope::Reply => {}
                    Envelope::Data(_) => {
                        assert(env_bytes(e)[0] == 2u8);
                    }
                }
            }
        }
        Some((Envelope::Reply, i + 1))
    } else if tag == 2 {
        decode_env_data(b, i)
    } else {
        proof {
            assert forall|e: Envelope| !prefix_at(b@, ii, env_bytes(e)) by {
                if prefix_at(b@, ii, env_bytes(e)) {
                    assert(b@[ii] == env_bytes(e)[0]);
                    match e {
                        Envelope::Announce => {
                            assert(env_bytes(e)[0] == 0u8);
                        }
                        Envelope::Reply => {
                            assert(env_bytes(e)[0] == 1u8);
                        }
                        Envelope::Data(_) => {
                            assert(env_bytes(e)[0] == 2u8);
                        }
                    }
                }
            }
        }
        None
    }
}

/// Where each part of an inner-payload encoding lies, and how long it is.
pub proof fn lemma_payload_split(b: Seq<u8>, i: int, p: Payload)
    requires
        prefix_at(b, i, payload_bytes(p)),
    ensures
        prefix_at(b, i, blob_bytes(p.payload@)),
        prefix_at(b, i + 4 + p.payload@.len(), be64(p.timesig.sent)),
        prefix_at(b, i + 12 + p.payload@.len(), opt_u64_bytes(p.timesig.received)),
        prefix_at(
            b,
            i + 12 + p.payload@.len() + opt_u64_bytes(p.timesig.received).len(),
            blob_bytes(p.sign@),
        ),
        payload_bytes(p).len() == 16 + p.payload@.len() + opt_u64_bytes(p.timesig.received).len()
            + p.sign@.len(),
{
    lemma_prefix_split(b, i, blob_bytes(p.payload@), ts_bytes(p.timesig) + blob_bytes(p.sign@));
    lemma_prefix_split(
        b,
        i + 4 + p.payload@.len(),
        ts_bytes(p.timesig),
        blob_bytes(p.sign@),
    );
    lemma_prefix_split(
        b,
        i + 4 + p.payload@.len(),
        be64(p.timesig.sent),
        opt_u64_bytes(p.timesig.received),
    );
}

/// Decode the inner payload of a message starting at position `i`.
#[verifier::rlimit(60)]
pub fn decode_payload(b: &Vec<u8>, i: usize) -> (r: Option<(Payload, usize)>)
    requires
        i <= b@.len(),
    ensures
        r matches Some(p) ==> i <= p.1 <= b@.len() && b@.subrange(i as int, p.1 as int)
            == payload_bytes(p.0) && wf_payload(p.0),
        forall|p: Payload|
            wf_payload(p) && prefix_at(b@, i as int, payload_bytes(p)) ==> (r matches Some(q)
                && payload_feq(q.0, p) && q.1 == i + payload_bytes(p).len()),
{
    let n = b.len();
    let ghost ii: int = i as int;
    let blob1 = decode_blob(b, i);
    let (pay, j1) = match blob1 {
        Some(q) => q,
        None => {
            proof {
                assert forall|p: Payload|
                    wf_payload(p) && prefix_at(b@, ii, payload_bytes(p)) implies false by {
                    lemma_payload_split(b@, ii, p);
                }
            }
            return None;
        }
    };
    if n - j1 < 8 {
        proof {
            assert forall|p: Payload|
                wf_payload(p) && prefix_at(b@, ii, payload_bytes(p)) implies false by {
                lemma_payload_split(b@, ii, p);
            }
        }
        return None;
    }
    let sent = read_be64(b, j1);
    let opt = decode_opt_u64(b, j1 + 8);
    let (received, j2) = match opt {
        Some(q) => q,
        None => {
            proof {
                assert forall|p: Payload|
                    wf_payload(p) && prefix_at(b@, ii, payload_bytes(p)) implies false by {
                    lemma_payload_split(b@, ii, p);
                }
            }
            return None;
        }
    };
    let blob2 = decode_blob(b, j2);
    let (sign, j3) = match blob2 {
        Some(q) => q,
        None => {
            proof {
                assert forall|p: Payload|
                    wf_payload(p) && prefix_at(b@, ii, payload_bytes(p)) implies false by {
                    lemma_payload_split(b@, ii, p);
                }
            }
            return None;
        }
    };
    let out = Payload { payload: pay, timesig: TimeSig { sent, received }, sign };
    proof {
        assert(prefix_at(b@, j2 as int, blob_bytes(out.sign@)));
        lemma_prefix_join(
            b@,
            j1 as int + 8,
            j2 as int,
            opt_u64_bytes(out.timesig.received),
            blob_bytes(out.sign@),
        );
        lemma_prefix_join(
            b@,
            j1 as int,
            j1 as int + 8,
            be64(out.timesig.sent),
            opt_u64_bytes(out.timesig.received) + blob_bytes(out.sign@),
        );
        assert(ts_bytes(out.timesig) + blob_bytes(out.sign@) =~= be64(out.timesig.sent)
            + (opt_u64_bytes(out.timesig.received) + blob_bytes(out.sign@)));
        assert(prefix_at(b@, j1 as int, ts_bytes(out.timesig) + blob_bytes(out.sign@)));
        lemma_prefix_join(
            b@,
            ii,
            j1 as int,
            blob_bytes(out.payload@),
            ts_bytes(out.timesig) + blob_bytes(out.sign@),
        );
        assert(prefix_at(b@, ii, payload_bytes(out)));
        assert(payload_bytes(out).len() == j3 - ii);
        assert(b@.subrange(ii, j3 as int) == payload_bytes(out));
        assert forall|p: Payload|
            wf_payload(p) && prefix_at(b@, ii, payload_bytes(p)) implies payload_feq(out, p) && j3
            == ii + payload_bytes(p).len() by {
            lemma_payload_split(b@, ii, p);
            assert(wf_blob(p.payload@));
            assert(prefix_at(b@, ii, blob_bytes(p.payload@)));
            assert(p.payload@ == pay@ && j1 == ii + 4 + p.payload@.len());
            assert(prefix_at(b@, j1 as int, be64(p.timesig.sent)));
            assert(be64(p.timesig.sent) == b@.subrange(j1 as int, j1 as int + 8));
            lemma_be64_injective(p.timesig.sent, sent);
            assert(prefix_at(b@, j1 as int + 8, opt_u64_bytes(p.timesig.received)));
            assert(p.timesig.received == received && j2 == j1 + 8 + opt_u64_bytes(
                p.timesig.received,
            ).len());
            assert(wf_blob(p.sign@));
            assert(prefix_at(b@, j2 as int, blob_bytes(p.sign@)));
            assert(p.sign@ == sign@ && j3 == j2 + blob_bytes(p.sign@).len());
        }
    }
    Some((out, j3))
}

/// Encode the inner payload of a message.
pub fn encode_payload(p: &Payload) -> (r: Vec<u8>)
    requires
        wf_payload(*p),
    ensures
        r@ == payload_bytes(*p),
{
    let mut out: Vec<u8> = Vec::new();
    push_blob(&mut out, &p.payload);
    push_be64(&mut out, p.timesig.sent);
    match &p.timesig.received {
        None => {
            out.push(0u8);
        }
        Some(x) => {
            out.push(1u8);
            push_be64(&mut out, *x);
        }
    }
    push_blob(&mut out, &p.sign);
    proof {
        assert(out@ =~= payload_bytes(*p));
    }
    out
}

} // verus!
