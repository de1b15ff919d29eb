//! The IPC daemon protocol: the tagged API envelope local clients speak
//! over a length-prefixed TCP stream, the authentication handshake, the
//! request dispatch, and the relay that fans delivered messages out to the
//! online sessions.  The listener, the sockets and the tasks stay outside;
//! they hand byte chunks in and write byte chunks out.

use vstd::prelude::*;

use crate::bytes::{be32, be64, lemma_be32_injective, lemma_be64_injective, push_be32, push_be64, read_be32, read_be64};
use crate::codec::{
    blob_bytes, decode_blob, decode_opt_id, decode_opt_u64, id_bytes, lemma_id_bytes_injective,
    lemma_prefix_join, lemma_prefix_split, opt_id_bytes, opt_u64_bytes, prefix_at, push_blob,
    push_identity, read_identity, ts_bytes, wf_blob,
};
use crate::codec::payload_bytes;
use crate::model::{Frame, Identity, Message, Payload, Peer, Recipient, TimeSig};
use crate::router::{msg_payload_bytes, Router};
use crate::slicer::{chain_wf, concat_payloads, copy_range};

verus! {

/// Session-control subtypes.
#[derive(Clone, Copy, PartialEq, Eq, Structural, Debug)]
pub enum SetupType {
    Online,
    Anonymous,
    OnlineAck,
}

/// Session control: going online under a known or fresh address, an
/// anonymous read-only session, or the server's acknowledgement.
#[derive(Clone, Debug)]
pub struct Setup {
    pub tipe: SetupType,
    pub id: Option<Identity>,
    pub token: Option<Vec<u8>>,
}

/// An outbound send from a client: flood, or one message per recipient.
#[derive(Clone, Debug)]
pub struct SendMsg {
    pub sender: Identity,
    pub flood: bool,
    pub recipients: Vec<Identity>,
    pub payload: Vec<u8>,
    pub sign: Vec<u8>,
}

/// An inbound message pushed to the owning session.
#[derive(Clone, Debug)]
pub struct Receive {
    pub id: Identity,
    pub sender: Identity,
    pub recipient: Option<Identity>,
    pub payload: Vec<u8>,
    pub timesig: TimeSig,
    pub sign: Vec<u8>,
}

/// Peer enumeration subtypes.
#[derive(Clone, Copy, PartialEq, Eq, Structural, Debug)]
pub enum PeersType {
    Req,
    Resp,
}

/// Peer enumeration request and response.
#[derive(Clone, Debug)]
pub struct PeersMsg {
    pub tipe: PeersType,
    pub peers: Vec<Identity>,
}

/// The tagged API envelope carried over the IPC stream.
#[derive(Clone, Debug)]
pub enum ApiMessage {
    Setup(Setup),
    SendMsg(SendMsg),
    Recv(Receive),
    Peers(PeersMsg),
}

/// The byte view of an optional token blob.
pub open spec fn opt_bytes_view(o: Option<Vec<u8>>) -> Option<Seq<u8>> {
    match o {
        None => None,
        Some(v) => Some(v@),
    }
}

/// Tag byte of a setup subtype.
pub open spec fn setup_tag(t: SetupType) -> u8 {
    match t {
        SetupType::Online => 0,
        SetupType::Anonymous => 1,
        SetupType::OnlineAck => 2,
    }
}

/// Tag byte of a peers subtype.
pub open spec fn peers_tag(t: PeersType) -> u8 {
    match t {
        PeersType::Req => 0,
        PeersType::Resp => 1,
    }
}

/// Optional blob: tag 0 for none, tag 1 plus a length-prefixed blob.
pub open spec fn opt_blob_bytes(o: Option<Seq<u8>>) -> Seq<u8> {
    match o {
        None => seq![0u8],
        Some(p) => seq![1u8] + blob_bytes(p),
    }
}

/// An optional blob is encodable when the blob, if any, is.
pub open spec fn wf_opt_blob(o: Option<Seq<u8>>) -> bool {
    match o {
        None => true,
        Some(p) => wf_blob(p),
    }
}

/// The identities of a list, back to back.
pub open spec fn ids_cat(ids: Seq<Identity>) -> Seq<u8>
    decreases ids.len(),
{
    if ids.len() == 0 {
        Seq::empty()
    } else {
        id_bytes(ids[0]) + ids_cat(ids.skip(1))
    }
}

/// A counted identity list.
pub open spec fn id_list_bytes(ids: Seq<Identity>) -> Seq<u8> {
    be32(ids.len() as u32) + ids_cat(ids)
}

/// The encoding of a setup message, after its arm tag.
pub open spec fn setup_bytes(t: SetupType, id: Option<Identity>, token: Option<Seq<u8>>) -> Seq<
    u8,
> {
    seq![setup_tag(t)] + (opt_id_bytes(id) + opt_blob_bytes(token))
}

/// Tag byte of the flood flag.
pub open spec fn flood_tag(flood: bool) -> u8 {
    if flood {
        1u8
    } else {
        0u8
    }
}

/// The encoding of a send message, after its arm tag.
pub open spec fn send_bytes(
    sender: Identity,
    flood: bool,
    recs: Seq<Identity>,
    payload: Seq<u8>,
    sign: Seq<u8>,
) -> Seq<u8> {
    id_bytes(sender) + (seq![flood_tag(flood)] + (id_list_bytes(recs) + (blob_bytes(payload)
        + blob_bytes(sign))))
}

/// The encoding of a receive message, after its arm tag.
pub open spec fn recv_bytes(
    id: Identity,
    sender: Identity,
    recipient: Option<Identity>,
    payload: Seq<u8>,
    ts: TimeSig,
    sign: Seq<u8>,
) -> Seq<u8> {
    id_bytes(id) + (id_bytes(sender) + (opt_id_bytes(recipient) + (blob_bytes(payload) + (
    ts_bytes(ts) + blob_bytes(sign)))))
}

/// The encoding of a peers message, after its arm tag.
pub open spec fn peers_bytes(t: PeersType, ids: Seq<Identity>) -> Seq<u8> {
    seq![peers_tag(t)] + id_list_bytes(ids)
}

/// The encoding of one API envelope: an arm tag, then the arm's fields.
pub open spec fn api_bytes(m: ApiMessage) -> Seq<u8> {
    match m {
        ApiMessage::Setup(s) => seq![0u8] + setup_bytes(s.tipe, s.id, opt_bytes_view(s.token)),
        ApiMessage::SendMsg(s) => seq![1u8] + send_bytes(
            s.sender,
            s.flood,
            s.recipients@,
            s.payload@,
            s.sign@,
        ),
        ApiMessage::Recv(r) => seq![2u8] + recv_bytes(
            r.id,
            r.sender,
            r.recipient,
            r.payload@,
            r.timesig,
            r.sign@,
        ),
        ApiMessage::Peers(p) => seq![3u8] + peers_bytes(p.tipe, p.peers@),
    }
}

/// An API envelope is encodable when its blobs and lists fit their length
/// prefixes.
pub open spec fn wf_api(m: ApiMessage) -> bool {
    match m {
        ApiMessage::Setup(s) => wf_opt_blob(opt_bytes_view(s.token)),
        ApiMessage::SendMsg(s) => s.recipients@.len() < 0x1_0000_0000 && wf_blob(s.payload@)
            && wf_blob(s.sign@),
        ApiMessage::Recv(r) => wf_blob(r.payload@) && wf_blob(r.sign@),
        ApiMessage::Peers(p) => p.peers@.len() < 0x1_0000_0000,
    }
}

/// API envelopes compared arm by arm, blobs byte for byte.
pub open spec fn api_feq(a: ApiMessage, m: ApiMessage) -> bool {
    match (a, m) {
        (ApiMessage::Setup(x), ApiMessage::Setup(y)) => x.tipe == y.tipe && x.id == y.id
            && opt_bytes_view(x.token) == opt_bytes_view(y.token),
        (ApiMessage::SendMsg(x), ApiMessage::SendMsg(y)) => x.sender == y.sender && x.flood
            == y.flood && x.recipients@ == y.recipients@ && x.payload@ == y.payload@ && x.sign@
            == y.sign@,
        (ApiMessage::Recv(x), ApiMessage::Recv(y)) => x.id == y.id && x.sender == y.sender
            && x.recipient == y.recipient && x.payload@ == y.payload@ && x.timesig == y.timesig
            && x.sign@ == y.sign@,
        (ApiMessage::Peers(x), ApiMessage::Peers(y)) => x.tipe == y.tipe && x.peers@ == y.peers@,
        _ => false,
    }
}

/// One more identity appends 32 more bytes.
pub proof fn lemma_ids_cat_push(ids: Seq<Identity>, x: Identity)
    ensures
        ids_cat(ids.push(x)) == ids_cat(ids) + id_bytes(x),
    decreases ids.len(),
{
    if ids.len() == 0 {
        let single = ids.push(x);
        assert(single[0] == x);
        assert(single.skip(1) =~= Seq::<Identity>::empty());
        assert(ids_cat(single.skip(1)) == Seq::<u8>::empty());
        assert(ids_cat(ids) == Seq::<u8>::empty());
        assert(ids_cat(ids.push(x)) =~= ids_cat(ids) + id_bytes(x));
    } else {
        assert(ids.push(x).skip(1) =~= ids.skip(1).push(x));
        lemma_ids_cat_push(ids.skip(1), x);
        assert(ids.push(x)[0] == ids[0]);
        assert(ids_cat(ids.push(x)) =~= ids_cat(ids) + id_bytes(x));
    }
}

/// A list of identities occupies 32 bytes each.
pub proof fn lemma_ids_cat_len(ids: Seq<Identity>)
    ensures
        ids_cat(ids).len() == 32 * ids.len(),
    decreases ids.len(),
{
    if ids.len() > 0 {
        lemma_ids_cat_len(ids.skip(1));
    }
}

/// Where each identity of a list lies.
pub proof fn lemma_ids_cat_index(b: Seq<u8>, i: int, ids: Seq<Identity>, k: int)
    requires
        prefix_at(b, i, ids_cat(ids)),
        0 <= k < ids.len(),
    ensures
        prefix_at(b, i + 32 * k, id_bytes(ids[k])),
    decreases k,
{
    lemma_prefix_split(b, i, id_bytes(ids[0]), ids_cat(ids.skip(1)));
    if k == 0 {
    } else {
        lemma_ids_cat_index(b, i + 32, ids.skip(1), k - 1);
        assert(ids.skip(1)[k - 1] == ids[k]);
    }
}

/// Append an optional identity.
fn push_opt_id(out: &mut Vec<u8>, o: &Option<Identity>)
    ensures
        final(out)@ == old(out)@ + opt_id_bytes(*o),
{
    match o {
        None => {
            out.push(0u8);
        }
        Some(id) => {
            out.push(1u8);
            push_identity(out, id);
        }
    }
    proof {
        assert(out@ =~= old(out)@ + opt_id_bytes(*o));
    }
}

/// Append an optional blob.
fn push_opt_blob(out: &mut Vec<u8>, o: &Option<Vec<u8>>)
    requires
        wf_opt_blob(opt_bytes_view(*o)),
    ensures
        final(out)@ == old(out)@ + opt_blob_bytes(opt_bytes_view(*o)),
{
    match o {
        None => {
            out.push(0u8);
        }
        Some(v) => {
            out.push(1u8);
            push_blob(out, v);
        }
    }
    proof {
        assert(out@ =~= old(out)@ + opt_blob_bytes(opt_bytes_view(*o)));
    }
}

/// Append a counted identity list.
fn push_id_list(out: &mut Vec<u8>, ids: &Vec<Identity>)
    requires
        ids@.len() < 0x1_0000_0000,
    ensures
        final(out)@ == old(out)@ + id_list_bytes(ids@),
{
    push_be32(out, ids.len() as u32);
    let mut k: usize = 0;
    proof {
        assert(ids@.subrange(0, 0) =~= Seq::<Identity>::empty());
    }
    while k < ids.len()
        invariant
            k <= ids@.len(),
            out@ == old(out)@ + be32(ids@.len() as u32) + ids_cat(ids@.subrange(0, k as int)),
        decreases ids@.len() - k,
    {
        proof {
            assert(ids@.subrange(0, k as int + 1) =~= ids@.subrange(0, k as int).push(
                ids@[k as int],
            ));
            lemma_ids_cat_push(ids@.subrange(0, k as int), ids@[k as int]);
        }
        push_identity(out, &ids[k]);
        k = k + 1;
    }
    proof {
        assert(ids@.subrange(0, ids@.len() as int) =~= ids@);
        assert(out@ =~= old(out)@ + id_list_bytes(ids@));
    }
}

/// Append a time signature.
fn push_ts(out: &mut Vec<u8>, t: &TimeSig)
    ensures
        final(out)@ == old(out)@ + ts_bytes(*t),
{
    push_be64(out, t.sent);
    match &t.received {
        None => {
            out.push(0u8);
        }
        Some(x) => {
            out.push(1u8);
            push_be64(out, *x);
        }
    }
    proof {
        assert(out@ =~= old(out)@ + ts_bytes(*t));
    }
}

/// Encode one API envelope.
pub fn encode_api(m: &ApiMessage) -> (r: Vec<u8>)
    requires
        wf_api(*m),
    ensures
        r@ == api_bytes(*m),
{
    let mut out: Vec<u8> = Vec::new();
    match m {
        ApiMessage::Setup(s) => {
            out.push(0u8);
            match s.tipe {
                SetupType::Online => out.push(0u8),
                SetupType::Anonymous => out.push(1u8),
                SetupType::OnlineAck => out.push(2u8),
            }
            push_opt_id(&mut out, &s.id);
            push_opt_blob(&mut out, &s.token);
            proof {
                assert(out@ =~= api_bytes(*m));
            }
        }
        ApiMessage::SendMsg(s) => {
            out.push(1u8);
            push_identity(&mut out, &s.sender);
            if s.flood {
                out.push(1u8);
            } else {
                out.push(0u8);
            }
            push_id_list(&mut out, &s.recipients);
            push_blob(&mut out, &s.payload);
            push_blob(&mut out, &s.sign);
            proof {
                assert(out@ =~= api_bytes(*m));
            }
        }
        ApiMessage::Recv(rm) => {
            out.push(2u8);
            push_identity(&mut out, &rm.id);
            push_identity(&mut out, &rm.sender);
            push_opt_id(&mut out, &rm.recipient);
            push_blob(&mut out, &rm.payload);
            push_ts(&mut out, &rm.timesig);
            push_blob(&mut out, &rm.sign);
            proof {
                assert(out@ =~= api_bytes(*m));
            }
        }
        ApiMessage::Peers(p) => {
            out.push(3u8);
            match p.tipe {
                PeersType::Req => out.push(0u8),
                PeersType::Resp => out.push(1u8),
            }
            push_id_list(&mut out, &p.peers);
            proof {
                assert(out@ =~= api_bytes(*m));
            }
        }
    }
    out
}

/// Decode an optional blob starting at position `i`.
fn decode_opt_blob(b: &Vec<u8>, i: usize) -> (r: Option<(Option<Vec<u8>>, usize)>)
    requires
        i <= b@.len(),
    ensures
        r matches Some(p) ==> i <= p.1 <= b@.len() && b@.subrange(i as int, p.1 as int)
            == opt_blob_bytes(opt_bytes_view(p.0)) && wf_opt_blob(opt_bytes_view(p.0)),
        forall|v: Option<Seq<u8>>|
            wf_opt_blob(v) && #[trigger] prefix_at(b@, i as int, opt_blob_bytes(v)) ==> (r
                matches Some(p) && opt_bytes_view(p.0) == v && p.1 == i + opt_blob_bytes(v).len()),
{
    let n = b.len();
    let ghost ii: int = i as int;
    if i >= n {
        proof {
            assert forall|v: Option<Seq<u8>>| !prefix_at(b@, ii, opt_blob_bytes(v)) by {
                assert(opt_blob_bytes(v).len() >= 1);
            }
        }
        return None;
    }
    let tag = b[i];
    if tag == 0 {
        proof {
            assert(b@.subrange(ii, ii + 1) =~= seq![0u8]);
            assert forall|v: Option<Seq<u8>>|
                wf_opt_blob(v) && prefix_at(b@, ii, opt_blob_bytes(v)) implies v
                == None::<Seq<u8>> && 1 == opt_blob_bytes(v).len() by {
                assert(b@[ii] == opt_blob_bytes(v)[0]);
                match v {
                    Some(_) => {
                        assert(opt_blob_bytes(v)[0] == 1u8);
                    }
                    None => {}
                }
            }
        }
        Some((None, i + 1))
    } else if tag == 1 {
        let blob = decode_blob(b, i + 1);
        match blob {
            Some((p, j)) => {
                proof {
                    assert(b@.subrange(ii, ii + 1) =~= seq![1u8]);
                    assert(prefix_at(b@, ii + 1, blob_bytes(p@)));
                    lemma_prefix_join(b@, ii, ii + 1, seq![1u8], blob_bytes(p@));
                    assert(b@.subrange(ii, j as int) == seq![1u8] + blob_bytes(p@));
                    assert forall|v: Option<Seq<u8>>|
                        wf_opt_blob(v) && prefix_at(b@, ii, opt_blob_bytes(v)) implies v == Some(
                        p@,
                    ) && j == i + opt_blob_bytes(v).len() by {
                        assert(b@[ii] == opt_blob_bytes(v)[0]);
                        match v {
                            Some(w) => {
                                lemma_prefix_split(b@, ii, seq![1u8], blob_bytes(w));
                                assert(prefix_at(b@, ii + 1, blob_bytes(w)));
                            }
                            None => {
                                assert(opt_blob_bytes(v)[0] == 0u8);
                            }
                        }
                    }
                }
                Some((Some(p), j))
            }
            None => {
                proof {
                    assert forall|v: Option<Seq<u8>>|
                        wf_opt_blob(v) && prefix_at(b@, ii, opt_blob_bytes(v)) implies false by {
                        assert(b@[ii] == opt_blob_bytes(v)[0]);
                        match v {
                            Some(w) => {
                                lemma_prefix_split(b@, ii, seq![1u8], blob_bytes(w));
                                assert(prefix_at(b@, ii + 1, blob_bytes(w)));
                            }
                            None => {
                                assert(opt_blob_bytes(v)[0] == 0u8);
                            }
                        }
                    }
                }
                None
            }
        }
    } else {
        proof {
            assert forall|v: Option<Seq<u8>>| !prefix_at(b@, ii, opt_blob_bytes(v)) by {
                if prefix_at(b@, ii, opt_blob_bytes(v)) {
                    assert(b@[ii] == opt_blob_bytes(v)[0]);
                    match v {
                        Some(_) => {
                            assert(opt_blob_bytes(v)[0] == 1u8);
                        }
                        None => {
                            assert(opt_blob_bytes(v)[0] == 0u8);
                        }
                    }
                }
            }
        }
        None
    }
}

/// Decode a counted identity list starting at position `i`.
#[verifier::rlimit(60)]
pub fn decode_id_list(b: &Vec<u8>, i: usize) -> (r: Option<(Vec<Identity>, usize)>)
    requires
        i <= b@.len(),
    ensures
        r matches Some(p) ==> i <= p.1 <= b@.len() && b@.subrange(i as int, p.1 as int)
            == id_list_bytes(p.0@) && p.0@.len() < 0x1_0000_0000,
        forall|v: Seq<Identity>|
            v.len() < 0x1_0000_0000 && #[trigger] prefix_at(b@, i as int, id_list_bytes(v)) ==> (r
                matches Some(p) && p.0@ == v && p.1 == i + id_list_bytes(v).len()),
{
    let n = b.len();
    let ghost ii: int = i as int;
    if n - i < 4 {
        proof {
            assert forall|v: Seq<Identity>|
                v.len() < 0x1_0000_0000 && prefix_at(b@, i as int, id_list_bytes(v)) implies false by {
                assert(id_list_bytes(v).len() >= 4);
            }
        }
        return None;
    }
    let cnt32 = read_be32(b, i);
    let cnt = cnt32 as usize;
    if (n - i - 4) / 32 < cnt {
        proof {
            assert forall|v: Seq<Identity>|
                v.len() < 0x1_0000_0000 && prefix_at(b@, i as int, id_list_bytes(v)) implies false by {
                lemma_prefix_split(b@, i as int, be32(v.len() as u32), ids_cat(v));
                assert(be32(v.len() as u32) == b@.subrange(i as int, i as int + 4));
                lemma_be32_injective(v.len() as u32, cnt32);
                lemma_ids_cat_len(v);
                assert(i as int + 4 + 32 * cnt <= b@.len());
                assert((n - i - 4) / 32 >= cnt) by (nonlinear_arith)
                    requires
                        i + 4 + 32 * cnt <= n,
                ;
            }
        }
        return None;
    }
    let mut out: Vec<Identity> = Vec::new();
    let mut pos: usize = i + 4;
    let mut k: usize = 0;
    proof {
        assert(32 * cnt <= n - i - 4) by (nonlinear_arith)
            requires
                (n - i - 4) / 32 >= cnt,
                0 <= n - i - 4,
        ;
        assert(ids_cat(out@) =~= Seq::<u8>::empty());
        assert(b@.subrange(i as int + 4, i as int + 4) =~= Seq::<u8>::empty());
    }
    while k < cnt
        invariant
            k <= cnt,
            pos == i + 4 + 32 * k,
            i + 4 + 32 * cnt <= n == b@.len(),
            out@.len() == k,
            b@.subrange(i as int + 4, pos as int) == ids_cat(out@),
            forall|k2: int|
                0 <= k2 < k ==> prefix_at(b@, i as int + 4 + 32 * k2, id_bytes(#[trigger] out@[k2])),
        decreases cnt - k,
    {
        proof {
            assert(pos + 32 <= n) by (nonlinear_arith)
                requires
                    pos == i + 4 + 32 * k,
                    k < cnt,
                    i + 4 + 32 * cnt <= n,
            ;
        }
        let id = read_identity(b, pos);
        proof {
            assert(id_bytes(id).len() == 32);
            lemma_ids_cat_push(out@, id);
            lemma_prefix_join(b@, i as int + 4, pos as int, ids_cat(out@), id_bytes(id));
            assert(b@.subrange(i as int + 4, pos as int + 32) == ids_cat(out@) + id_bytes(id));
        }
        let ghost out0 = out@;
        out.push(id);
        pos = pos + 32;
        k = k + 1;
        proof {
            assert(out@ == out0.push(id));
            assert(b@.subrange(i as int + 4, pos as int) == ids_cat(out@));
            assert forall|k2: int|
                0 <= k2 < k implies prefix_at(b@, i as int + 4 + 32 * k2, id_bytes(
                #[trigger] out@[k2])) by {
                if k2 == k - 1 {
                    assert(out@[k2] == id);
                } else {
                    assert(out@[k2] == out0[k2]);
                }
            }
        }
    }
    proof {
        assert(be32(out@.len() as u32) == be32(cnt32)) by {
            assert(out@.len() as u32 == cnt32);
        }
        assert(b@.subrange(i as int, i as int + 4 + 32 * cnt as int) =~= be32(cnt32) + b@.subrange(
            i as int + 4,
            i as int + 4 + 32 * cnt as int,
        ));
        assert(b@.subrange(i as int, pos as int) == id_list_bytes(out@));
        assert forall|v: Seq<Identity>|
            v.len() < 0x1_0000_0000 && prefix_at(b@, i as int, id_list_bytes(v)) implies v == out@ && pos
            == i + id_list_bytes(v).len() by {
            lemma_prefix_split(b@, i as int, be32(v.len() as u32), ids_cat(v));
            assert(be32(v.len() as u32) == b@.subrange(i as int, i as int + 4));
            lemma_be32_injective(v.len() as u32, cnt32);
            assert(v.len() == cnt);
            lemma_ids_cat_len(v);
            assert forall|k2: int| 0 <= k2 < cnt implies out@[k2] == v[k2] by {
                lemma_ids_cat_index(b@, i as int + 4, v, k2);
                assert(prefix_at(b@, i as int + 4 + 32 * k2, id_bytes(v[k2])));
                assert(prefix_at(b@, i as int + 4 + 32 * k2, id_bytes(out@[k2])));
                assert(id_bytes(v[k2]) == b@.subrange(i as int + 4 + 32 * k2, i as int + 4 + 32 * k2 + 32));
                assert(id_bytes(out@[k2]) == b@.subrange(
                    i as int + 4 + 32 * k2,
                    i as int + 4 + 32 * k2 + 32,
                ));
                lemma_id_bytes_injective(v[k2], out@[k2]);
            }
            assert(v =~= out@);
        }
    }
    Some((out, pos))
}


/// Where the parts of a setup encoding lie.
proof fn lemma_setup_split(b: Seq<u8>, i: int, t: SetupType, oid: Option<Identity>, tok: Option<
    Seq<u8>,
>)
    requires
        prefix_at(b, i, setup_bytes(t, oid, tok)),
    ensures
        0 <= i < b.len(),
        b[i] == setup_tag(t),
        prefix_at(b, i + 1, opt_id_bytes(oid)),
        prefix_at(b, i + 1 + opt_id_bytes(oid).len(), opt_blob_bytes(tok)),
        setup_bytes(t, oid, tok).len() == 1 + opt_id_bytes(oid).len() + opt_blob_bytes(tok).len(),
{
    lemma_prefix_split(b, i, seq![setup_tag(t)], opt_id_bytes(oid) + opt_blob_bytes(tok));
    lemma_prefix_split(b, i + 1, opt_id_bytes(oid), opt_blob_bytes(tok));
    assert(b[i] == b.subrange(i, i + 1)[0]);
}

/// Decode a setup message body starting at position `i`.
#[verifier::rlimit(60)]
fn decode_setup_body(b: &Vec<u8>, i: usize) -> (r: Option<(Setup, usize)>)
    requires
        i <= b@.len(),
    ensures
        r matches Some(p) ==> i <= p.1 <= b@.len() && b@.subrange(i as int, p.1 as int)
            == setup_bytes(p.0.tipe, p.0.id, opt_bytes_view(p.0.token)) && wf_opt_blob(
            opt_bytes_view(p.0.token),
        ),
        forall|t: SetupType, oid: Option<Identity>, tok: Option<Seq<u8>>|
            wf_opt_blob(tok) && #[trigger] prefix_at(b@, i as int, setup_bytes(t, oid, tok)) ==> (
            r matches Some(p) && p.0.tipe == t && p.0.id == oid && opt_bytes_view(p.0.token) == tok
                && p.1 == i + setup_bytes(t, oid, tok).len()),
{
    let n = b.len();
    if i >= n {
        proof {
            assert forall|t: SetupType, oid: Option<Identity>, tok: Option<Seq<u8>>|
                wf_opt_blob(tok) && prefix_at(b@, i as int, setup_bytes(t, oid, tok)) implies
                false by {
                lemma_setup_split(b@, i as int, t, oid, tok);
            }
        }
        return None;
    }
    let tag = b[i];
    if tag > 2 {
        proof {
            assert forall|t: SetupType, oid: Option<Identity>, tok: Option<Seq<u8>>|
                wf_opt_blob(tok) && prefix_at(b@, i as int, setup_bytes(t, oid, tok)) implies
                false by {
                lemma_setup_split(b@, i as int, t, oid, tok);
                match t {
                    SetupType::Online => {}
                    SetupType::Anonymous => {}
                    SetupType::OnlineAck => {}
                }
            }
        }
        return None;
    }
    let tipe = if tag == 0 {
        SetupType::Online
    } else if tag == 1 {
        SetupType::Anonymous
    } else {
        SetupType::OnlineAck
    };
    proof {
        assert(b@[i as int] == setup_tag(tipe));
    }
    let oid = decode_opt_id(b, i + 1);
    let (id, j1) = match oid {
        Some(p) => p,
        None => {
            proof {
                assert forall|t: SetupType, oid2: Option<Identity>, tok: Option<Seq<u8>>|
                    wf_opt_blob(tok) && prefix_at(b@, i as int, setup_bytes(t, oid2, tok)) implies
                    false by {
                    lemma_setup_split(b@, i as int, t, oid2, tok);
                }
            }
            return None;
        }
    };
    let tokr = decode_opt_blob(b, j1);
    let (token, j2) = match tokr {
        Some(p) => p,
        None => {
            proof {
                assert forall|t: SetupType, oid2: Option<Identity>, tok: Option<Seq<u8>>|
                    wf_opt_blob(tok) && prefix_at(b@, i as int, setup_bytes(t, oid2, tok)) implies
                    false by {
                    lemma_setup_split(b@, i as int, t, oid2, tok);
                    assert(oid2 == id && j1 == i + 1 + opt_id_bytes(oid2).len());
                    assert(prefix_at(b@, j1 as int, opt_blob_bytes(tok)));
                }
            }
            return None;
        }
    };
    let out = Setup { tipe, id, token };
    proof {
        assert(b@.subrange(i as int, i as int + 1) =~= seq![setup_tag(tipe)]);
        assert(prefix_at(b@, j1 as int, opt_blob_bytes(opt_bytes_view(out.token))));
        assert(prefix_at(b@, i as int + 1, opt_id_bytes(out.id)));
        lemma_prefix_join(
            b@,
            i as int + 1,
            j1 as int,
            opt_id_bytes(out.id),
            opt_blob_bytes(opt_bytes_view(out.token)),
        );
        lemma_prefix_join(
            b@,
            i as int,
            i as int + 1,
            seq![setup_tag(tipe)],
            opt_id_bytes(out.id) + opt_blob_bytes(opt_bytes_view(out.token)),
        );
        assert(b@.subrange(i as int, j2 as int) == setup_bytes(
            out.tipe,
            out.id,
            opt_bytes_view(out.token),
        ));
        assert forall|t: SetupType, oid2: Option<Identity>, tok: Option<Seq<u8>>|
            wf_opt_blob(tok) && prefix_at(b@, i as int, setup_bytes(t, oid2, tok)) implies (out.tipe
            == t && out.id == oid2 && opt_bytes_view(out.token) == tok && j2 == i + setup_bytes(
            t,
            oid2,
            tok,
        ).len()) by {
            lemma_setup_split(b@, i as int, t, oid2, tok);
            match t {
                SetupType::Online => {}
                SetupType::Anonymous => {}
                SetupType::OnlineAck => {}
            }
            assert(oid2 == id && j1 == i + 1 + opt_id_bytes(oid2).len());
            assert(prefix_at(b@, j1 as int, opt_blob_bytes(tok)));
        }
    }
    Some((out, j2))
}

/// Where the parts of a send encoding lie.
proof fn lemma_send_split(
    b: Seq<u8>,
    i: int,
    sender: Identity,
    flood: bool,
    recs: Seq<Identity>,
    payload: Seq<u8>,
    sign: Seq<u8>,
)
    requires
        prefix_at(b, i, send_bytes(sender, flood, recs, payload, sign)),
    ensures
        prefix_at(b, i, id_bytes(sender)),
        i + 32 < b.len(),
        b[i + 32] == flood_tag(flood),
        prefix_at(b, i + 33, id_list_bytes(recs)),
        prefix_at(b, i + 33 + id_list_bytes(recs).len(), blob_bytes(payload)),
        prefix_at(
            b,
            i + 37 + id_list_bytes(recs).len() + payload.len(),
            blob_bytes(sign),
        ),
        send_bytes(sender, flood, recs, payload, sign).len() == 41 + id_list_bytes(recs).len()
            + payload.len() + sign.len(),
{
    lemma_prefix_split(
        b,
        i,
        id_bytes(sender),
        seq![flood_tag(flood)] + (id_list_bytes(recs) + (blob_bytes(payload) + blob_bytes(sign))),
    );
    lemma_prefix_split(
        b,
        i + 32,
        seq![flood_tag(flood)],
        id_list_bytes(recs) + (blob_bytes(payload) + blob_bytes(sign)),
    );
    lemma_prefix_split(
        b,
        i + 33,
        id_list_bytes(recs),
        blob_bytes(payload) + blob_bytes(sign),
    );
    lemma_prefix_split(
        b,
        i + 33 + id_list_bytes(recs).len(),
        blob_bytes(payload),
        blob_bytes(sign),
    );
    assert(b[i + 32] == b.subrange(i + 32, i + 33)[0]);
}

/// Decode a send message body starting at position `i`.
#[verifier::rlimit(100)]
fn decode_send_body(b: &Vec<u8>, i: usize) -> (r: Option<(SendMsg, usize)>)
    requires
        i <= b@.len(),
    ensures
        r matches Some(p) ==> i <= p.1 <= b@.len() && b@.subrange(i as int, p.1 as int)
            == send_bytes(p.0.sender, p.0.flood, p.0.recipients@, p.0.payload@, p.0.sign@)
            && p.0.recipients@.len() < 0x1_0000_0000 && wf_blob(p.0.payload@) && wf_blob(
            p.0.sign@,
        ),
        forall|sender: Identity, flood: bool, recs: Seq<Identity>, payload: Seq<u8>, sign: Seq<u8>|
            recs.len() < 0x1_0000_0000 && wf_blob(payload) && wf_blob(sign)
                && #[trigger] prefix_at(b@, i as int, send_bytes(sender, flood, recs, payload, sign))
                ==> (r matches Some(p) && p.0.sender == sender && p.0.flood == flood
                && p.0.recipients@ == recs && p.0.payload@ == payload && p.0.sign@ == sign && p.1
                == i + send_bytes(sender, flood, recs, payload, sign).len()),
{
    let n = b.len();
    if n - i < 33 {
        proof {
            assert forall|sender: Identity, flood: bool, recs: Seq<Identity>, payload: Seq<u8>, sign: Seq<u8>|
                recs.len() < 0x1_0000_0000 && wf_blob(payload) && wf_blob(sign) && prefix_at(
                    b@,
                    i as int,
                    send_bytes(sender, flood, recs, payload, sign),
                ) implies false by {
                lemma_send_split(b@, i as int, sender, flood, recs, payload, sign);
            }
        }
        return None;
    }
    let sender = read_identity(b, i);
    let ftag = b[i + 32];
    if ftag > 1 {
        proof {
            assert forall|s2: Identity, flood: bool, recs: Seq<Identity>, payload: Seq<u8>, sign: Seq<u8>|
                recs.len() < 0x1_0000_0000 && wf_blob(payload) && wf_blob(sign) && prefix_at(
                    b@,
                    i as int,
                    send_bytes(s2, flood, recs, payload, sign),
                ) implies false by {
                lemma_send_split(b@, i as int, s2, flood, recs, payload, sign);
            }
        }
        return None;
    }
    let flood = ftag == 1;
    let lst = decode_id_list(b, i + 33);
    let (recipients, j1) = match lst {
        Some(p) => p,
        None => {
            proof {
                assert forall|s2: Identity, flood2: bool, recs: Seq<Identity>, payload: Seq<u8>, sign: Seq<u8>|
                    recs.len() < 0x1_0000_0000 && wf_blob(payload) && wf_blob(sign) && prefix_at(
                        b@,
                        i as int,
                        send_bytes(s2, flood2, recs, payload, sign),
                    ) implies false by {
                    lemma_send_split(b@, i as int, s2, flood2, recs, payload, sign);
                }
            }
            return None;
        }
    };
    let pb = decode_blob(b, j1);
    let (payload, j2) = match pb {
        Some(p) => p,
        None => {
            proof {
                assert forall|s2: Identity, flood2: bool, recs: Seq<Identity>, payload2: Seq<u8>, sign: Seq<u8>|
                    recs.len() < 0x1_0000_0000 && wf_blob(payload2) && wf_blob(sign) && prefix_at(
                        b@,
                        i as int,
                        send_bytes(s2, flood2, recs, payload2, sign),
                    ) implies false by {
                    lemma_send_split(b@, i as int, s2, flood2, recs, payload2, sign);
                    assert(recs == recipients@ && j1 == i + 33 + id_list_bytes(recs).len());
                    assert(prefix_at(b@, j1 as int, blob_bytes(payload2)));
                }
            }
            return None;
        }
    };
    let sb = decode_blob(b, j2);
    let (sign, j3) = match sb {
        Some(p) => p,
        None => {
            proof {
                assert forall|s2: Identity, flood2: bool, recs: Seq<Identity>, payload2: Seq<u8>, sign2: Seq<u8>|
                    recs.len() < 0x1_0000_0000 && wf_blob(payload2) && wf_blob(sign2) && prefix_at(
                        b@,
                        i as int,
                        send_bytes(s2, flood2, recs, payload2, sign2),
                    ) implies false by {
                    lemma_send_split(b@, i as int, s2, flood2, recs, payload2, sign2);
                    assert(recs == recipients@ && j1 == i + 33 + id_list_bytes(recs).len());
                    assert(prefix_at(b@, j1 as int, blob_bytes(payload2)));
                    assert(payload2 == payload@ && j2 == j1 + blob_bytes(payload2).len());
                    assert(prefix_at(b@, j2 as int, blob_bytes(sign2)));
                }
            }
            return None;
        }
    };
    let out = SendMsg { sender, flood, recipients, payload, sign };
    proof {
        assert(b@.subrange(i as int + 32, i as int + 33) =~= seq![flood_tag(out.flood)]);
        assert(prefix_at(b@, j2 as int, blob_bytes(out.sign@)));
        lemma_prefix_join(b@, j1 as int, j2 as int, blob_bytes(out.payload@), blob_bytes(out.sign@));
        lemma_prefix_join(
            b@,
            i as int + 33,
            j1 as int,
            id_list_bytes(out.recipients@),
            blob_bytes(out.payload@) + blob_bytes(out.sign@),
        );
        lemma_prefix_join(
            b@,
            i as int + 32,
            i as int + 33,
            seq![flood_tag(out.flood)],
            id_list_bytes(out.recipients@) + (blob_bytes(out.payload@) + blob_bytes(out.sign@)),
        );
        lemma_prefix_join(
            b@,
            i as int,
            i as int + 32,
            id_bytes(out.sender),
            seq![flood_tag(out.flood)] + (id_list_bytes(out.recipients@) + (blob_bytes(
                out.payload@,
            ) + blob_bytes(out.sign@))),
        );
        assert(b@.subrange(i as int, j3 as int) == send_bytes(
            out.sender,
            out.flood,
            out.recipients@,
            out.payload@,
            out.sign@,
        ));
        assert forall|s2: Identity, flood2: bool, recs: Seq<Identity>, payload2: Seq<u8>, sign2: Seq<u8>|
            recs.len() < 0x1_0000_0000 && wf_blob(payload2) && wf_blob(sign2) && prefix_at(
                b@,
                i as int,
                send_bytes(s2, flood2, recs, payload2, sign2),
            ) implies (out.sender == s2 && out.flood == flood2 && out.recipients@ == recs
            && out.payload@ == payload2 && out.sign@ == sign2 && j3 == i + send_bytes(
            s2,
            flood2,
            recs,
            payload2,
            sign2,
        ).len()) by {
            lemma_send_split(b@, i as int, s2, flood2, recs, payload2, sign2);
            assert(s2 == sender);
            assert(flood_tag(flood2) == flood_tag(out.flood));
            assert(flood2 == out.flood);
            assert(recs == recipients@ && j1 == i + 33 + id_list_bytes(recs).len());
            assert(prefix_at(b@, j1 as int, blob_bytes(payload2)));
            assert(payload2 == payload@ && j2 == j1 + blob_bytes(payload2).len());
            assert(prefix_at(b@, j2 as int, blob_bytes(sign2)));
            assert(sign2 == sign@ && j3 == j2 + blob_bytes(sign2).len());
        }
    }
    Some((out, j3))
}

/// Where the parts of a receive encoding lie.
proof fn lemma_recv_split(
    b: Seq<u8>,
    i: int,
    id: Identity,
    sender: Identity,
    recipient: Option<Identity>,
    payload: Seq<u8>,
    ts: TimeSig,
    sign: Seq<u8>,
)
    requires
        prefix_at(b, i, recv_bytes(id, sender, recipient, payload, ts, sign)),
    ensures
        prefix_at(b, i, id_bytes(id)),
        prefix_at(b, i + 32, id_bytes(sender)),
        prefix_at(b, i + 64, opt_id_bytes(recipient)),
        prefix_at(b, i + 64 + opt_id_bytes(recipient).len(), blob_bytes(payload)),
        prefix_at(
            b,
            i + 68 + opt_id_bytes(recipient).len() + payload.len(),
            be64(ts.sent),
        ),
        prefix_at(
            b,
            i + 76 + opt_id_bytes(recipient).len() + payload.len(),
            opt_u64_bytes(ts.received),
        ),
        prefix_at(
            b,
            i + 76 + opt_id_bytes(recipient).len() + payload.len() + opt_u64_bytes(
                ts.received,
            ).len(),
            blob_bytes(sign),
        ),
        recv_bytes(id, sender, recipient, payload, ts, sign).len() == 80 + opt_id_bytes(
            recipient,
        ).len() + payload.len() + opt_u64_bytes(ts.received).len() + sign.len(),
{
    lemma_prefix_split(
        b,
        i,
        id_bytes(id),
        id_bytes(sender) + (opt_id_bytes(recipient) + (blob_bytes(payload) + (ts_bytes(ts)
            + blob_bytes(sign)))),
    );
    lemma_prefix_split(
        b,
        i + 32,
        id_bytes(sender),
        opt_id_bytes(recipient) + (blob_bytes(payload) + (ts_bytes(ts) + blob_bytes(sign))),
    );
    lemma_prefix_split(
        b,
        i + 64,
        opt_id_bytes(recipient),
        blob_bytes(payload) + (ts_bytes(ts) + blob_bytes(sign)),
    );
    lemma_prefix_split(
        b,
        i + 64 + opt_id_bytes(recipient).len(),
        blob_bytes(payload),
        ts_bytes(ts) + blob_bytes(sign),
    );
    lemma_prefix_split(
        b,
        i + 68 + opt_id_bytes(recipient).len() + payload.len(),
        ts_bytes(ts),
        blob_bytes(sign),
    );
    lemma_prefix_split(
        b,
        i + 68 + opt_id_bytes(recipient).len() + payload.len(),
        be64(ts.sent),
        opt_u64_bytes(ts.received),
    );
}

/// The leading half of a receive encoding.
pub open spec fn recv_head_bytes(
    id: Identity,
    sender: Identity,
    recipient: Option<Identity>,
    payload: Seq<u8>,
) -> Seq<u8> {
    id_bytes(id) + (id_bytes(sender) + (opt_id_bytes(recipient) + blob_bytes(payload)))
}

/// The trailing half of a receive encoding.
pub open spec fn recv_tail_bytes(ts: TimeSig, sign: Seq<u8>) -> Seq<u8> {
    be64(ts.sent) + (opt_u64_bytes(ts.received) + blob_bytes(sign))
}

/// A receive encoding is its two halves in order.
proof fn lemma_recv_decomp(
    id: Identity,
    sender: Identity,
    recipient: Option<Identity>,
    payload: Seq<u8>,
    ts: TimeSig,
    sign: Seq<u8>,
)
    ensures
        recv_bytes(id, sender, recipient, payload, ts, sign) == recv_head_bytes(
            id,
            sender,
            recipient,
            payload,
        ) + recv_tail_bytes(ts, sign),
{
    assert(recv_bytes(id, sender, recipient, payload, ts, sign) =~= recv_head_bytes(
        id,
        sender,
        recipient,
        payload,
    ) + recv_tail_bytes(ts, sign));
}

/// Decode the leading half of a receive message.
#[verifier::rlimit(60)]
fn decode_recv_head(b: &Vec<u8>, i: usize) -> (r: Option<
    ((Identity, Identity, Option<Identity>, Vec<u8>), usize),
>)
    requires
        i <= b@.len(),
    ensures
        r matches Some(p) ==> i <= p.1 <= b@.len() && b@.subrange(i as int, p.1 as int)
            == recv_head_bytes(p.0.0, p.0.1, p.0.2, p.0.3@) && wf_blob(p.0.3@),
        forall|id: Identity, sender: Identity, rec: Option<Identity>, payload: Seq<u8>|
            wf_blob(payload) && #[trigger] prefix_at(
                b@,
                i as int,
                recv_head_bytes(id, sender, rec, payload),
            ) ==> (r matches Some(p) && p.0.0 == id && p.0.1 == sender && p.0.2 == rec && p.0.3@
                == payload && p.1 == i + recv_head_bytes(id, sender, rec, payload).len()),
{
    let n = b.len();
    let ghost gi: int = i as int;
    if n - i < 64 {
        proof {
            assert forall|id: Identity, sender: Identity, rec: Option<Identity>, payload: Seq<u8>|
                wf_blob(payload) && prefix_at(b@, gi, recv_head_bytes(id, sender, rec, payload))
                implies false by {
                lemma_prefix_split(
                    b@,
                    gi,
                    id_bytes(id),
                    id_bytes(sender) + (opt_id_bytes(rec) + blob_bytes(payload)),
                );
                lemma_prefix_split(
                    b@,
                    gi + 32,
                    id_bytes(sender),
                    opt_id_bytes(rec) + blob_bytes(payload),
                );
            }
        }
        return None;
    }
    let mid = read_identity(b, i);
    let msender = read_identity(b, i + 32);
    let orc = decode_opt_id(b, i + 64);
    let (recipient, j1) = match orc {
        Some(p) => p,
        None => {
            proof {
                assert forall|id: Identity, sender: Identity, rec: Option<Identity>, payload: Seq<u8>|
                    wf_blob(payload) && prefix_at(b@, gi, recv_head_bytes(id, sender, rec, payload))
                    implies false by {
                    lemma_prefix_split(
                        b@,
                        gi,
                        id_bytes(id),
                        id_bytes(sender) + (opt_id_bytes(rec) + blob_bytes(payload)),
                    );
                    lemma_prefix_split(
                        b@,
                        gi + 32,
                        id_bytes(sender),
                        opt_id_bytes(rec) + blob_bytes(payload),
                    );
                    lemma_prefix_split(b@, gi + 64, opt_id_bytes(rec), blob_bytes(payload));
                }
            }
            return None;
        }
    };
    let pb = decode_blob(b, j1);
    let (payload, j2) = match pb {
        Some(p) => p,
        None => {
            proof {
                assert forall|id: Identity, sender: Identity, rec: Option<Identity>, payload2: Seq<u8>|
                    wf_blob(payload2) && prefix_at(
                        b@,
                        gi,
                        recv_head_bytes(id, sender, rec, payload2),
                    ) implies false by {
                    lemma_prefix_split(
                        b@,
                        gi,
                        id_bytes(id),
                        id_bytes(sender) + (opt_id_bytes(rec) + blob_bytes(payload2)),
                    );
                    lemma_prefix_split(
                        b@,
                        gi + 32,
                        id_bytes(sender),
                        opt_id_bytes(rec) + blob_bytes(payload2),
                    );
                    lemma_prefix_split(b@, gi + 64, opt_id_bytes(rec), blob_bytes(payload2));
                    assert(rec == recipient && j1 == i + 64 + opt_id_bytes(rec).len());
                    assert(prefix_at(b@, j1 as int, blob_bytes(payload2)));
                }
            }
            return None;
        }
    };
    proof {
        assert(prefix_at(b@, j1 as int, blob_bytes(payload@)));
        lemma_prefix_join(
            b@,
            gi + 64,
            j1 as int,
            opt_id_bytes(recipient),
            blob_bytes(payload@),
        );
        lemma_prefix_join(
            b@,
            gi + 32,
            gi + 64,
            id_bytes(msender),
            opt_id_bytes(recipient) + blob_bytes(payload@),
        );
        lemma_prefix_join(
            b@,
            gi,
            gi + 32,
            id_bytes(mid),
            id_bytes(msender) + (opt_id_bytes(recipient) + blob_bytes(payload@)),
        );
        assert(b@.subrange(gi, j2 as int) == recv_head_bytes(mid, msender, recipient, payload@));
        assert forall|id: Identity, sender: Identity, rec: Option<Identity>, payload2: Seq<u8>|
            wf_blob(payload2) && prefix_at(b@, gi, recv_head_bytes(id, sender, rec, payload2))
            implies (mid == id && msender == sender && recipient == rec && payload@ == payload2
            && j2 == i + recv_head_bytes(id, sender, rec, payload2).len()) by {
            lemma_prefix_split(
                b@,
                gi,
                id_bytes(id),
                id_bytes(sender) + (opt_id_bytes(rec) + blob_bytes(payload2)),
            );
            lemma_prefix_split(
                b@,
                gi + 32,
                id_bytes(sender),
                opt_id_bytes(rec) + blob_bytes(payload2),
            );
            lemma_prefix_split(b@, gi + 64, opt_id_bytes(rec), blob_bytes(payload2));
            assert(rec == recipient && j1 == i + 64 + opt_id_bytes(rec).len());
            assert(prefix_at(b@, j1 as int, blob_bytes(payload2)));
            assert(payload2 == payload@ && j2 == j1 + blob_bytes(payload2).len());
        }
    }
    Some(((mid, msender, recipient, payload), j2))
}

/// Decode the trailing half of a receive message.
#[verifier::rlimit(60)]
fn decode_recv_tail(b: &Vec<u8>, i: usize) -> (r: Option<((TimeSig, Vec<u8>), usize)>)
    requires
        i <= b@.len(),
    ensures
        r matches Some(p) ==> i <= p.1 <= b@.len() && b@.subrange(i as int, p.1 as int)
            == recv_tail_bytes(p.0.0, p.0.1@) && wf_blob(p.0.1@),
        forall|ts: TimeSig, sign: Seq<u8>|
            wf_blob(sign) && #[trigger] prefix_at(b@, i as int, recv_tail_bytes(ts, sign)) ==> (r
                matches Some(p) && p.0.0 == ts && p.0.1@ == sign && p.1 == i + recv_tail_bytes(
                ts,
                sign,
            ).len()),
{
    let n = b.len();
    let ghost gi: int = i as int;
    if n - i < 8 {
        proof {
            assert forall|ts: TimeSig, sign: Seq<u8>|
                wf_blob(sign) && prefix_at(b@, gi, recv_tail_bytes(ts, sign)) implies false by {
                lemma_prefix_split(
                    b@,
                    gi,
                    be64(ts.sent),
                    opt_u64_bytes(ts.received) + blob_bytes(sign),
                );
            }
        }
        return None;
    }
    let sent = read_be64(b, i);
    let ou = decode_opt_u64(b, i + 8);
    let (received, j1) = match ou {
        Some(p) => p,
        None => {
            proof {
                assert forall|ts: TimeSig, sign: Seq<u8>|
                    wf_blob(sign) && prefix_at(b@, gi, recv_tail_bytes(ts, sign)) implies false by {
                    lemma_prefix_split(
                        b@,
                        gi,
                        be64(ts.sent),
                        opt_u64_bytes(ts.received) + blob_bytes(sign),
                    );
                    lemma_prefix_split(b@, gi + 8, opt_u64_bytes(ts.received), blob_bytes(sign));
                }
            }
            return None;
        }
    };
    let sb = decode_blob(b, j1);
    let (sign, j2) = match sb {
        Some(p) => p,
        None => {
            proof {
                assert forall|ts: TimeSig, sign2: Seq<u8>|
                    wf_blob(sign2) && prefix_at(b@, gi, recv_tail_bytes(ts, sign2)) implies
                    false by {
                    lemma_prefix_split(
                        b@,
                        gi,
                        be64(ts.sent),
                        opt_u64_bytes(ts.received) + blob_bytes(sign2),
                    );
                    lemma_prefix_split(b@, gi + 8, opt_u64_bytes(ts.received), blob_bytes(sign2));
                    assert(ts.received == received && j1 == i + 8 + opt_u64_bytes(
                        ts.received,
                    ).len());
                    assert(prefix_at(b@, j1 as int, blob_bytes(sign2)));
                }
            }
            return None;
        }
    };
    let out_ts = TimeSig { sent, received };
    proof {
        assert(prefix_at(b@, j1 as int, blob_bytes(sign@)));
        lemma_prefix_join(b@, gi + 8, j1 as int, opt_u64_bytes(received), blob_bytes(sign@));
        lemma_prefix_join(
            b@,
            gi,
            gi + 8,
            be64(sent),
            opt_u64_bytes(received) + blob_bytes(sign@),
        );
        assert(b@.subrange(gi, j2 as int) == recv_tail_bytes(out_ts, sign@));
        assert forall|ts: TimeSig, sign2: Seq<u8>|
            wf_blob(sign2) && prefix_at(b@, gi, recv_tail_bytes(ts, sign2)) implies (out_ts == ts
            && sign@ == sign2 && j2 == i + recv_tail_bytes(ts, sign2).len()) by {
            lemma_prefix_split(
                b@,
                gi,
                be64(ts.sent),
                opt_u64_bytes(ts.received) + blob_bytes(sign2),
            );
            lemma_prefix_split(b@, gi + 8, opt_u64_bytes(ts.received), blob_bytes(sign2));
            assert(be64(ts.sent) == b@.subrange(gi, gi + 8));
            lemma_be64_injective(ts.sent, sent);
            assert(ts.received == received && j1 == i + 8 + opt_u64_bytes(ts.received).len());
            assert(prefix_at(b@, j1 as int, blob_bytes(sign2)));
            assert(sign2 == sign@ && j2 == j1 + blob_bytes(sign2).len());
        }
    }
    Some(((out_ts, sign), j2))
}

/// Decode a receive message body starting at position `i`.
#[verifier::rlimit(60)]
fn decode_recv_body(b: &Vec<u8>, i: usize) -> (r: Option<(Receive, usize)>)
    requires
        i <= b@.len(),
    ensures
        r matches Some(p) ==> i <= p.1 <= b@.len() && b@.subrange(i as int, p.1 as int)
            == recv_bytes(p.0.id, p.0.sender, p.0.recipient, p.0.payload@, p.0.timesig, p.0.sign@)
            && wf_blob(p.0.payload@) && wf_blob(p.0.sign@),
        forall|id: Identity, sender: Identity, rec: Option<Identity>, payload: Seq<u8>, ts: TimeSig, sign: Seq<u8>|
            wf_blob(payload) && wf_blob(sign) && #[trigger] prefix_at(
                b@,
                i as int,
                recv_bytes(id, sender, rec, payload, ts, sign),
            ) ==> (r matches Some(p) && p.0.id == id && p.0.sender == sender && p.0.recipient
                == rec && p.0.payload@ == payload && p.0.timesig == ts && p.0.sign@ == sign && p.1
                == i + recv_bytes(id, sender, rec, payload, ts, sign).len()),
{
    let ghost gi: int = i as int;
    let head = decode_recv_head(b, i);
    let (h, j1) = match head {
        Some(p) => p,
        None => {
            proof {
                assert forall|id: Identity, sender: Identity, rec: Option<Identity>, payload: Seq<u8>, ts: TimeSig, sign: Seq<u8>|
                    wf_blob(payload) && wf_blob(sign) && prefix_at(
                        b@,
                        gi,
                        recv_bytes(id, sender, rec, payload, ts, sign),
                    ) implies false by {
                    lemma_recv_decomp(id, sender, rec, payload, ts, sign);
                    lemma_prefix_split(
                        b@,
                        gi,
                        recv_head_bytes(id, sender, rec, payload),
                        recv_tail_bytes(ts, sign),
                    );
                }
            }
            return None;
        }
    };
    let (mid, msender, recipient, payload) = h;
    let tail = decode_recv_tail(b, j1);
    let (t, j2) = match tail {
        Some(p) => p,
        None => {
            proof {
                assert forall|id: Identity, sender: Identity, rec: Option<Identity>, payload2: Seq<u8>, ts: TimeSig, sign: Seq<u8>|
                    wf_blob(payload2) && wf_blob(sign) && prefix_at(
                        b@,
                        gi,
                        recv_bytes(id, sender, rec, payload2, ts, sign),
                    ) implies false by {
                    lemma_recv_decomp(id, sender, rec, payload2, ts, sign);
                    lemma_prefix_split(
                        b@,
                        gi,
                        recv_head_bytes(id, sender, rec, payload2),
                        recv_tail_bytes(ts, sign),
                    );
                    assert(j1 == i + recv_head_bytes(id, sender, rec, payload2).len());
                    assert(prefix_at(b@, j1 as int, recv_tail_bytes(ts, sign)));
                }
            }
            return None;
        }
    };
    let (timesig, sign) = t;
    let out = Receive { id: mid, sender: msender, recipient, payload, timesig, sign };
    proof {
        lemma_recv_decomp(out.id, out.sender, out.recipient, out.payload@, out.timesig, out.sign@);
        assert(prefix_at(b@, j1 as int, recv_tail_bytes(out.timesig, out.sign@)));
        lemma_prefix_join(
            b@,
            gi,
            j1 as int,
            recv_head_bytes(out.id, out.sender, out.recipient, out.payload@),
            recv_tail_bytes(out.timesig, out.sign@),
        );
        assert(b@.subrange(gi, j2 as int) == recv_bytes(
            out.id,
            out.sender,
            out.recipient,
            out.payload@,
            out.timesig,
            out.sign@,
        ));
        assert forall|id: Identity, sender: Identity, rec: Option<Identity>, payload2: Seq<u8>, ts: TimeSig, sign2: Seq<u8>|
            wf_blob(payload2) && wf_blob(sign2) && prefix_at(
                b@,
                gi,
                recv_bytes(id, sender, rec, payload2, ts, sign2),
            ) implies (out.id == id && out.sender == sender && out.recipient == rec && out.payload@
            == payload2 && out.timesig == ts && out.sign@ == sign2 && j2 == i + recv_bytes(
            id,
            sender,
            rec,
            payload2,
            ts,
            sign2,
        ).len()) by {
            lemma_recv_decomp(id, sender, rec, payload2, ts, sign2);
            lemma_prefix_split(
                b@,
                gi,
                recv_head_bytes(id, sender, rec, payload2),
                recv_tail_bytes(ts, sign2),
            );
            assert(id == mid && sender == msender && rec == recipient && payload2 == payload@
                && j1 == i + recv_head_bytes(id, sender, rec, payload2).len());
            assert(prefix_at(b@, j1 as int, recv_tail_bytes(ts, sign2)));
            assert(ts == timesig && sign2 == sign@ && j2 == j1 + recv_tail_bytes(ts, sign2).len());
        }
    }
    Some((out, j2))
}

/// Decode a peers message body starting at position `i`.
#[verifier::rlimit(60)]
fn decode_peers_body(b: &Vec<u8>, i: usize) -> (r: Option<(PeersMsg, usize)>)
    requires
        i <= b@.len(),
    ensures
        r matches Some(p) ==> i <= p.1 <= b@.len() && b@.subrange(i as int, p.1 as int)
            == peers_bytes(p.0.tipe, p.0.peers@) && p.0.peers@.len() < 0x1_0000_0000,
        forall|t: PeersType, ids: Seq<Identity>|
            ids.len() < 0x1_0000_0000 && #[trigger] prefix_at(b@, i as int, peers_bytes(t, ids))
                ==> (r matches Some(p) && p.0.tipe == t && p.0.peers@ == ids && p.1 == i
                + peers_bytes(t, ids).len()),
{
    let n = b.len();
    if i >= n {
        proof {
            assert forall|t: PeersType, ids: Seq<Identity>|
                ids.len() < 0x1_0000_0000 && prefix_at(b@, i as int, peers_bytes(t, ids)) implies
                false by {
                assert(peers_bytes(t, ids).len() >= 1);
            }
        }
        return None;
    }
    let tag = b[i];
    if tag > 1 {
        proof {
            assert forall|t: PeersType, ids: Seq<Identity>|
                ids.len() < 0x1_0000_0000 && prefix_at(b@, i as int, peers_bytes(t, ids)) implies
                false by {
                lemma_prefix_split(b@, i as int, seq![peers_tag(t)], id_list_bytes(ids));
                assert(b@[i as int] == b@.subrange(i as int, i as int + 1)[0]);
                match t {
                    PeersType::Req => {}
                    PeersType::Resp => {}
                }
            }
        }
        return None;
    }
    let tipe = if tag == 0 {
        PeersType::Req
    } else {
        PeersType::Resp
    };
    let lst = decode_id_list(b, i + 1);
    let (peers, j1) = match lst {
        Some(p) => p,
        None => {
            proof {
                assert forall|t: PeersType, ids: Seq<Identity>|
                    ids.len() < 0x1_0000_0000 && prefix_at(b@, i as int, peers_bytes(t, ids))
                    implies false by {
                    lemma_prefix_split(b@, i as int, seq![peers_tag(t)], id_list_bytes(ids));
                    assert(prefix_at(b@, i as int + 1, id_list_bytes(ids)));
                }
            }
            return None;
        }
    };
    let out = PeersMsg { tipe, peers };
    proof {
        assert(b@.subrange(i as int, i as int + 1) =~= seq![peers_tag(out.tipe)]);
        assert(prefix_at(b@, i as int + 1, id_list_bytes(out.peers@)));
        lemma_prefix_join(
            b@,
            i as int,
            i as int + 1,
            seq![peers_tag(out.tipe)],
            id_list_bytes(out.peers@),
        );
        assert(b@.subrange(i as int, j1 as int) == peers_bytes(out.tipe, out.peers@));
        assert forall|t: PeersType, ids: Seq<Identity>|
            ids.len() < 0x1_0000_0000 && prefix_at(b@, i as int, peers_bytes(t, ids)) implies (
        out.tipe == t && out.peers@ == ids && j1 == i + peers_bytes(t, ids).len()) by {
            lemma_prefix_split(b@, i as int, seq![peers_tag(t)], id_list_bytes(ids));
            assert(b@[i as int] == b@.subrange(i as int, i as int + 1)[0]);
            match t {
                PeersType::Req => {}
                PeersType::Resp => {}
            }
            assert(prefix_at(b@, i as int + 1, id_list_bytes(ids)));
        }
    }
    Some((out, j1))
}

/// Where the parts of an API encoding lie under each arm tag.
proof fn lemma_api_split(b: Seq<u8>, i: int, m: ApiMessage)
    requires
        wf_api(m),
        prefix_at(b, i, api_bytes(m)),
    ensures
        0 <= i < b.len(),
        b[i] == api_bytes(m)[0],
        m matches ApiMessage::Setup(s) ==> b[i] == 0u8 && prefix_at(
            b,
            i + 1,
            setup_bytes(s.tipe, s.id, opt_bytes_view(s.token)),
        ) && api_bytes(m).len() == 1 + setup_bytes(s.tipe, s.id, opt_bytes_view(s.token)).len(),
        m matches ApiMessage::SendMsg(s) ==> b[i] == 1u8 && prefix_at(
            b,
            i + 1,
            send_bytes(s.sender, s.flood, s.recipients@, s.payload@, s.sign@),
        ) && api_bytes(m).len() == 1 + send_bytes(
            s.sender,
            s.flood,
            s.recipients@,
            s.payload@,
            s.sign@,
        ).len(),
        m matches ApiMessage::Recv(rm) ==> b[i] == 2u8 && prefix_at(
            b,
            i + 1,
            recv_bytes(rm.id, rm.sender, rm.recipient, rm.payload@, rm.timesig, rm.sign@),
        ) && api_bytes(m).len() == 1 + recv_bytes(
            rm.id,
            rm.sender,
            rm.recipient,
            rm.payload@,
            rm.timesig,
            rm.sign@,
        ).len(),
        m matches ApiMessage::Peers(p) ==> b[i] == 3u8 && prefix_at(
            b,
            i + 1,
            peers_bytes(p.tipe, p.peers@),
        ) && api_bytes(m).len() == 1 + peers_bytes(p.tipe, p.peers@).len(),
{
    match m {
        ApiMessage::Setup(s) => {
            lemma_prefix_split(
                b,
                i,
                seq![0u8],
                setup_bytes(s.tipe, s.id, opt_bytes_view(s.token)),
            );
        }
        ApiMessage::SendMsg(s) => {
            lemma_prefix_split(
                b,
                i,
                seq![1u8],
                send_bytes(s.sender, s.flood, s.recipients@, s.payload@, s.sign@),
            );
        }
        ApiMessage::Recv(rm) => {
            lemma_prefix_split(
                b,
                i,
                seq![2u8],
                recv_bytes(rm.id, rm.sender, rm.recipient, rm.payload@, rm.timesig, rm.sign@),
            );
        }
        ApiMessage::Peers(p) => {
            lemma_prefix_split(b, i, seq![3u8], peers_bytes(p.tipe, p.peers@));
        }
    }
    assert(b[i] == b.subrange(i, i + 1)[0]);
}

/// Decode the API arm under tag byte 0.
#[verifier::rlimit(100)]
fn api_arm_setup(b: &Vec<u8>, i: usize) -> (r: Option<(ApiMessage, usize)>)
    requires
        i < b@.len(),
        b@[i as int] == 0u8,
    ensures
        r matches Some(p) ==> i <= p.1 <= b@.len() && b@.subrange(i as int, p.1 as int)
            == api_bytes(p.0) && wf_api(p.0),
        forall|m: ApiMessage|
            wf_api(m) && #[trigger] prefix_at(b@, i as int, api_bytes(m)) ==> (r matches Some(p)
                && api_feq(p.0, m) && p.1 == i + api_bytes(m).len()),
{
    let ghost gi: int = i as int;
    let _n: usize = b.len();
    let body = decode_setup_body(b, i + 1);
    match body {
        Some((s, j)) => {
            proof {
                assert(b@.subrange(gi, gi + 1) =~= seq![0u8]);
                lemma_prefix_join(b@, gi, gi + 1, seq![0u8], setup_bytes(s.tipe, s.id, opt_bytes_view(s.token)));
                assert(b@.subrange(gi, j as int) == api_bytes(ApiMessage::Setup(s)));
                assert forall|m: ApiMessage|
                    wf_api(m) && prefix_at(b@, gi, api_bytes(m)) implies (api_feq(
                    ApiMessage::Setup(s),
                    m,
                ) && j == i + api_bytes(m).len()) by {
                    lemma_api_split(b@, gi, m);
                    match m {
                        ApiMessage::Setup(s2) => {
                            assert(prefix_at(b@, gi + 1, setup_bytes(s2.tipe, s2.id, opt_bytes_view(s2.token))));
                        }
                        _ => {}
                    }
                }
            }
            Some((ApiMessage::Setup(s), j))
        }
        None => {
            proof {
                assert forall|m: ApiMessage|
                    wf_api(m) && prefix_at(b@, gi, api_bytes(m)) implies false by {
                    lemma_api_split(b@, gi, m);
                    match m {
                        ApiMessage::Setup(s2) => {
                            assert(prefix_at(b@, gi + 1, setup_bytes(s2.tipe, s2.id, opt_bytes_view(s2.token))));
                        }
                        _ => {}
                    }
                }
            }
            None
        }
    }
}

/// Decode the API arm under tag byte 1.
#[verifier::rlimit(100)]
fn api_arm_send(b: &Vec<u8>, i: usize) -> (r: Option<(ApiMessage, usize)>)
    requires
        i < b@.len(),
        b@[i as int] == 1u8,
    ensures
        r matches Some(p) ==> i <= p.1 <= b@.len() && b@.subrange(i as int, p.1 as int)
            == api_bytes(p.0) && wf_api(p.0),
        forall|m: ApiMessage|
            wf_api(m) && #[trigger] prefix_at(b@, i as int, api_bytes(m)) ==> (r matches Some(p)
                && api_feq(p.0, m) && p.1 == i + api_bytes(m).len()),
{
    let ghost gi: int = i as int;
    let _n: usize = b.len();
    let body = decode_send_body(b, i + 1);
    match body {
        Some((s, j)) => {
            proof {
                assert(b@.subrange(gi, gi + 1) =~= seq![1u8]);
                lemma_prefix_join(b@, gi, gi + 1, seq![1u8], send_bytes(s.sender, s.flood, s.recipients@, s.payload@, s.sign@));
                assert(b@.subrange(gi, j as int) == api_bytes(ApiMessage::SendMsg(s)));
                assert forall|m: ApiMessage|
                    wf_api(m) && prefix_at(b@, gi, api_bytes(m)) implies (api_feq(
                    ApiMessage::SendMsg(s),
                    m,
                ) && j == i + api_bytes(m).len()) by {
                    lemma_api_split(b@, gi, m);
                    match m {
                        ApiMessage::SendMsg(s2) => {
                            assert(prefix_at(b@, gi + 1, send_bytes(s2.sender, s2.flood, s2.recipients@, s2.payload@, s2.sign@)));
                        }
                        _ => {}
                    }
                }
            }
            Some((ApiMessage::SendMsg(s), j))
        }
        None => {
            proof {
                assert forall|m: ApiMessage|
                    wf_api(m) && prefix_at(b@, gi, api_bytes(m)) implies false by {
                    lemma_api_split(b@, gi, m);
                    match m {
                        ApiMessage::SendMsg(s2) => {
                            assert(prefix_at(b@, gi + 1, send_bytes(s2.sender, s2.flood, s2.recipients@, s2.payload@, s2.sign@)));
                        }
                        _ => {}
                    }
                }
            }
            None
        }
    }
}

/// Decode the API arm under tag byte 2.
#[verifier::rlimit(100)]
fn api_arm_recv(b: &Vec<u8>, i: usize) -> (r: Option<(ApiMessage, usize)>)
    requires
        i < b@.len(),
        b@[i as int] == 2u8,
    ensures
        r matches Some(p) ==> i <= p.1 <= b@.len() && b@.subrange(i as int, p.1 as int)
            == api_bytes(p.0) && wf_api(p.0),
        forall|m: ApiMessage|
            wf_api(m) && #[trigger] prefix_at(b@, i as int, api_bytes(m)) ==> (r matches Some(p)
                && api_feq(p.0, m) && p.1 == i + api_bytes(m).len()),
{
    let ghost gi: int = i as int;
    let _n: usize = b.len();
    let body = decode_recv_body(b, i + 1);
    match body {
        Some((s, j)) => {
            proof {
                assert(b@.subrange(gi, gi + 1) =~= seq![2u8]);
                lemma_prefix_join(b@, gi, gi + 1, seq![2u8], recv_bytes(s.id, s.sender, s.recipient, s.payload@, s.timesig, s.sign@));
                assert(b@.subrange(gi, j as int) == api_bytes(ApiMessage::Recv(s)));
                assert forall|m: ApiMessage|
                    wf_api(m) && prefix_at(b@, gi, api_bytes(m)) implies (api_feq(
                    ApiMessage::Recv(s),
                    m,
                ) && j == i + api_bytes(m).len()) by {
                    lemma_api_split(b@, gi, m);
                    match m {
                        ApiMessage::Recv(s2) => {
                            assert(prefix_at(b@, gi + 1, recv_bytes(s2.id, s2.sender, s2.recipient, s2.payload@, s2.timesig, s2.sign@)));
                        }
                        _ => {}
                    }
                }
            }
            Some((ApiMessage::Recv(s), j))
        }
        None => {
            proof {
                assert forall|m: ApiMessage|
                    wf_api(m) && prefix_at(b@, gi, api_bytes(m)) implies false by {
                    lemma_api_split(b@, gi, m);
                    match m {
                        ApiMessage::Recv(s2) => {
                            assert(prefix_at(b@, gi + 1, recv_bytes(s2.id, s2.sender, s2.recipient, s2.payload@, s2.timesig, s2.sign@)));
                        }
                        _ => {}
                    }
                }
            }
            None
        }
    }
}

/// Decode the API arm under tag byte 3.
#[verifier::rlimit(100)]
fn api_arm_peers(b: &Vec<u8>, i: usize) -> (r: Option<(ApiMessage, usize)>)
    requires
        i < b@.len(),
        b@[i as int] == 3u8,
    ensures
        r matches Some(p) ==> i <= p.1 <= b@.len() && b@.subrange(i as int, p.1 as int)
            == api_bytes(p.0) && wf_api(p.0),
        forall|m: ApiMessage|
            wf_api(m) && #[trigger] prefix_at(b@, i as int, api_bytes(m)) ==> (r matches Some(p)
                && api_feq(p.0, m) && p.1 == i + api_bytes(m).len()),
{
    let ghost gi: int = i as int;
    let _n: usize = b.len();
    let body = decode_peers_body(b, i + 1);
    match body {
        Some((s, j)) => {
            proof {
                assert(b@.subrange(gi, gi + 1) =~= seq![3u8]);
                lemma_prefix_join(b@, gi, gi + 1, seq![3u8], peers_bytes(s.tipe, s.peers@));
                assert(b@.subrange(gi, j as int) == api_bytes(ApiMessage::Peers(s)));
                assert forall|m: ApiMessage|
                    wf_api(m) && prefix_at(b@, gi, api_bytes(m)) implies (api_feq(
                    ApiMessage::Peers(s),
                    m,
                ) && j == i + api_bytes(m).len()) by {
                    lemma_api_split(b@, gi, m);
                    match m {
                        ApiMessage::Peers(s2) => {
                            assert(prefix_at(b@, gi + 1, peers_bytes(s2.tipe, s2.peers@)));
                        }
                        _ => {}
                    }
                }
            }
            Some((ApiMessage::Peers(s), j))
        }
        None => {
            proof {
                assert forall|m: ApiMessage|
                    wf_api(m) && prefix_at(b@, gi, api_bytes(m)) implies false by {
                    lemma_api_split(b@, gi, m);
                    match m {
                        ApiMessage::Peers(s2) => {
                            assert(prefix_at(b@, gi + 1, peers_bytes(s2.tipe, s2.peers@)));
                        }
                        _ => {}
                    }
                }
            }
            None
        }
    }
}

/// Decode one API envelope starting at position `i`.
pub fn decode_api(b: &Vec<u8>, i: usize) -> (r: Option<(ApiMessage, usize)>)
    requires
        i <= b@.len(),
    ensures
        r matches Some(p) ==> i <= p.1 <= b@.len() && b@.subrange(i as int, p.1 as int)
            == api_bytes(p.0) && wf_api(p.0),
        forall|m: ApiMessage|
            wf_api(m) && #[trigger] prefix_at(b@, i as int, api_bytes(m)) ==> (r matches Some(p)
                && api_feq(p.0, m) && p.1 == i + api_bytes(m).len()),
{
    let n = b.len();
    let ghost gi: int = i as int;
    if i >= n {
        proof {
            assert forall|m: ApiMessage|
                wf_api(m) && prefix_at(b@, gi, api_bytes(m)) implies false by {
                lemma_api_split(b@, gi, m);
            }
        }
        return None;
    }
    let tag = b[i];
    if tag == 0 {
        api_arm_setup(b, i)
    } else if tag == 1 {
        api_arm_send(b, i)
    } else if tag == 2 {
        api_arm_recv(b, i)
    } else if tag == 3 {
        api_arm_peers(b, i)
    } else {
        proof {
            assert forall|m: ApiMessage|
                wf_api(m) && prefix_at(b@, gi, api_bytes(m)) implies false by {
                lemma_api_split(b@, gi, m);
                match m {
                    ApiMessage::Setup(_) => {}
                    ApiMessage::SendMsg(_) => {}
                    ApiMessage::Recv(_) => {}
                    ApiMessage::Peers(_) => {}
                }
            }
        }
        None
    }
}


/// Errors of the IPC surface.
#[derive(Clone, Copy, PartialEq, Eq, Structural, Debug)]
pub enum IpcError {
    /// The first message on a connection was not an acceptable handshake.
    InvalidAuth,
}

/// What the authentication handshake decided.
#[derive(Clone, Copy, PartialEq, Eq, Structural, Debug)]
pub enum AuthDecision {
    /// A known local address goes online.
    Known(Identity),
    /// A fresh address is registered and goes online.
    Fresh(Identity),
    /// A read-only session without an address.
    Anonymous,
    /// Anything else: refuse and close.
    Invalid,
}

/// The handshake table: an online request with an id and a token claims a
/// known address; one with neither is assigned the fresh address; an
/// anonymous request opens a read-only session; everything else is invalid.
pub open spec fn auth_rule(m: ApiMessage, fresh: Identity) -> AuthDecision {
    match m {
        ApiMessage::Setup(s) => match s.tipe {
            SetupType::Online => match (s.id, s.token) {
                (Some(id), Some(_)) => AuthDecision::Known(id),
                (None, None) => AuthDecision::Fresh(fresh),
                _ => AuthDecision::Invalid,
            },
            SetupType::Anonymous => AuthDecision::Anonymous,
            SetupType::OnlineAck => AuthDecision::Invalid,
        },
        _ => AuthDecision::Invalid,
    }
}

/// Decide what a first message on a connection means.
pub fn auth_decision(m: &ApiMessage, fresh: Identity) -> (r: AuthDecision)
    ensures
        r == auth_rule(*m, fresh),
{
    match m {
        ApiMessage::Setup(s) => match s.tipe {
            SetupType::Online => match (&s.id, &s.token) {
                (Some(id), Some(_)) => AuthDecision::Known(*id),
                (None, None) => AuthDecision::Fresh(fresh),
                _ => AuthDecision::Invalid,
            },
            SetupType::Anonymous => AuthDecision::Anonymous,
            SetupType::OnlineAck => AuthDecision::Invalid,
        },
        _ => AuthDecision::Invalid,
    }
}

/// The framed online acknowledgement for an address.
pub open spec fn online_ack_bytes(id: Identity) -> Seq<u8> {
    blob_bytes(seq![0u8] + setup_bytes(SetupType::OnlineAck, Some(id), None))
}

/// Length-frame one encoded message for the stream.
pub fn frame_chunk(body: &Vec<u8>) -> (r: Vec<u8>)
    requires
        wf_blob(body@),
    ensures
        r@ == blob_bytes(body@),
{
    let mut out: Vec<u8> = Vec::new();
    push_blob(&mut out, body);
    out
}

/// Parse one length-framed API message starting at position `i` of a
/// stream buffer.  The framed chunk must hold exactly one message.
#[verifier::rlimit(60)]
pub fn parse_framed(b: &Vec<u8>, i: usize) -> (r: Option<(ApiMessage, usize)>)
    requires
        i <= b@.len(),
    ensures
        r matches Some(p) ==> i <= p.1 <= b@.len() && wf_api(p.0) && b@.subrange(
            i as int,
            p.1 as int,
        ) == blob_bytes(api_bytes(p.0)),
        forall|m: ApiMessage|
            wf_api(m) && api_bytes(m).len() < 0x1_0000_0000 && #[trigger] prefix_at(
                b@,
                i as int,
                blob_bytes(api_bytes(m)),
            ) ==> (r matches Some(p) && api_feq(p.0, m) && p.1 == i + blob_bytes(
                api_bytes(m),
            ).len()),
{
    let ghost gi: int = i as int;
    let chunkr = decode_blob(b, i);
    let (chunk, j) = match chunkr {
        Some(p) => p,
        None => {
            proof {
                assert forall|m: ApiMessage|
                    wf_api(m) && api_bytes(m).len() < 0x1_0000_0000 && prefix_at(
                        b@,
                        gi,
                        blob_bytes(api_bytes(m)),
                    ) implies false by {
                    assert(wf_blob(api_bytes(m)));
                }
            }
            return None;
        }
    };
    let dec = decode_api(&chunk, 0);
    match dec {
        Some((m, c)) => {
            if c == chunk.len() {
                proof {
                    assert(chunk@.subrange(0, c as int) =~= chunk@);
                    assert(chunk@ == api_bytes(m));
                    assert forall|m2: ApiMessage|
                        wf_api(m2) && api_bytes(m2).len() < 0x1_0000_0000 && prefix_at(
                            b@,
                            gi,
                            blob_bytes(api_bytes(m2)),
                        ) implies (api_feq(m, m2) && j == i + blob_bytes(api_bytes(m2)).len()) by {
                        assert(wf_blob(api_bytes(m2)));
                        assert(chunk@ == api_bytes(m2));
                        assert(chunk@.subrange(0, api_bytes(m2).len() as int) =~= chunk@);
                        assert(prefix_at(chunk@, 0, api_bytes(m2)));
                    }
                }
                Some((m, j))
            } else {
                proof {
                    assert forall|m2: ApiMessage|
                        wf_api(m2) && api_bytes(m2).len() < 0x1_0000_0000 && prefix_at(
                            b@,
                            gi,
                            blob_bytes(api_bytes(m2)),
                        ) implies false by {
                        assert(wf_blob(api_bytes(m2)));
                        assert(chunk@ == api_bytes(m2));
                        assert(chunk@.subrange(0, api_bytes(m2).len() as int) =~= chunk@);
                        assert(prefix_at(chunk@, 0, api_bytes(m2)));
                    }
                }
                None
            }
        }
        None => {
            proof {
                assert forall|m2: ApiMessage|
                    wf_api(m2) && api_bytes(m2).len() < 0x1_0000_0000 && prefix_at(
                        b@,
                        gi,
                        blob_bytes(api_bytes(m2)),
                    ) implies false by {
                    assert(wf_blob(api_bytes(m2)));
                    assert(chunk@ == api_bytes(m2));
                    assert(chunk@.subrange(0, api_bytes(m2).len() as int) =~= chunk@);
                    assert(prefix_at(chunk@, 0, api_bytes(m2)));
                }
            }
            None
        }
    }
}

/// Perform the authentication handshake on the first message of a
/// connection.  A fresh random address must be supplied for the case where
/// the client asks to be assigned one; it may not collide with a hosted
/// address.  On success the session's address, if any, is returned with
/// the framed acknowledgement to write back.
pub fn handle_auth(router: &mut Router, m: &ApiMessage, fresh: Identity) -> (r: Result<
    (Option<Identity>, Vec<u8>),
    IpcError,
>)
    requires
        old(router).wf(),
        old(router).locals_seq().len() < usize::MAX,
        !old(router).is_local(fresh),
    ensures
        final(router).wf(),
        final(router).routes_seq() == old(router).routes_seq(),
        final(router).seen() == old(router).seen(),
        final(router).delivery_seq() == old(router).delivery_seq(),
        auth_rule(*m, fresh) matches AuthDecision::Known(id) ==> (r matches Ok(p) && p.0 == Some(
            id,
        ) && final(router).is_local(id) && final(router).is_online(id) && p.1@ == online_ack_bytes(
            id,
        ) && (!old(router).is_local(id) ==> final(router).locals_seq() == old(
            router,
        ).locals_seq().push((id, true))) && (old(router).is_local(id) ==> exists|i: int|
            0 <= i < old(router).locals_seq().len() && (#[trigger] old(router).locals_seq()[i]).0
                == id && final(router).locals_seq() == old(router).locals_seq().update(
                i,
                (id, true),
            ))),
        auth_rule(*m, fresh) matches AuthDecision::Fresh(id) ==> (r matches Ok(p) && p.0 == Some(
            id,
        ) && final(router).is_local(id) && final(router).is_online(id) && p.1@ == online_ack_bytes(
            id,
        ) && final(router).locals_seq() == old(router).locals_seq().push((id, true))),
        auth_rule(*m, fresh) is Anonymous ==> (r matches Ok(p) && p.0 == None::<Identity> && p.1@
            == Seq::<u8>::empty() && final(router).locals_seq() == old(router).locals_seq()),
        auth_rule(*m, fresh) is Invalid ==> r == Err::<(Option<Identity>, Vec<u8>), IpcError>(
            IpcError::InvalidAuth,
        ) && final(router).locals_seq() == old(router).locals_seq(),
    {
    let decision = auth_decision(m, fresh);
    match decision {
        AuthDecision::Known(id) => {
            let added = router.add_user(id);
            proof {
                match added {
                    Ok(_) => {
                        assert(router.locals_seq()[router.locals_seq().len() - 1].0 == id);
                        assert(router.is_local(id));
                    }
                    Err(_) => {
                        let k = choose|k: int|
                            0 <= k < old(router).locals_seq().len() && (
                            #[trigger] old(router).locals_seq()[k]).0 == id;
                        assert(router.locals_seq()[k].0 == id);
                        assert(router.is_local(id));
                    }
                }
            }
            let ghost locals1 = router.locals_seq();
            let _up = router.online(id);
            proof {
                let i = choose|i: int|
                    0 <= i < locals1.len() && (#[trigger] locals1[i]).0 == id
                        && router.locals_seq() == locals1.update(i, (id, true));
                if old(router).is_local(id) {
                    assert(locals1 == old(router).locals_seq());
                    assert(old(router).locals_seq()[i].0 == id);
                } else {
                    assert(locals1 == old(router).locals_seq().push((id, false)));
                    assert forall|j: int|
                        0 <= j < old(router).locals_seq().len() implies (#[trigger] locals1[j]).0
                        != id by {
                        assert(locals1[j] == old(router).locals_seq()[j]);
                        if old(router).locals_seq()[j].0 == id {
                            assert(old(router).is_local(id));
                        }
                    }
                    assert(i == old(router).locals_seq().len());
                    assert(router.locals_seq() =~= old(router).locals_seq().push((id, true)));
                }
            }
            let ack = encode_api(
                &ApiMessage::Setup(Setup { tipe: SetupType::OnlineAck, id: Some(id), token: None }),
            );
            proof {
                assert(wf_blob(ack@));
            }
            let framed = frame_chunk(&ack);
            Ok((Some(id), framed))
        }
        AuthDecision::Fresh(id) => {
            let added = router.add_user(id);
            proof {
                assert(added is Ok);
                assert(router.locals_seq()[router.locals_seq().len() - 1].0 == id);
                assert(router.is_local(id));
            }
            let ghost locals1 = router.locals_seq();
            let _up = router.online(id);
            proof {
                let i = choose|i: int|
                    0 <= i < locals1.len() && (#[trigger] locals1[i]).0 == id
                        && router.locals_seq() == locals1.update(i, (id, true));
                if old(router).is_local(id) {
                    assert(locals1 == old(router).locals_seq());
                    assert(old(router).locals_seq()[i].0 == id);
                } else {
                    assert(locals1 == old(router).locals_seq().push((id, false)));
                    assert forall|j: int|
                        0 <= j < old(router).locals_seq().len() implies (#[trigger] locals1[j]).0
                        != id by {
                        assert(locals1[j] == old(router).locals_seq()[j]);
                        if old(router).locals_seq()[j].0 == id {
                            assert(old(router).is_local(id));
                        }
                    }
                    assert(i == old(router).locals_seq().len());
                    assert(router.locals_seq() =~= old(router).locals_seq().push((id, true)));
                }
            }
            let ack = encode_api(
                &ApiMessage::Setup(Setup { tipe: SetupType::OnlineAck, id: Some(id), token: None }),
            );
            proof {
                assert(wf_blob(ack@));
            }
            let framed = frame_chunk(&ack);
            Ok((Some(id), framed))
        }
        AuthDecision::Anonymous => Ok((None, Vec::new())),
        AuthDecision::Invalid => Err(IpcError::InvalidAuth),
    }
}

/// Relies on chrono::Utc::now and DateTime::timestamp_millis: the current
/// wall-clock time in milliseconds since the epoch, converted to an
/// unsigned word.  Nothing is promised of a clock reading.
#[verifier::external_body]
fn now_millis() -> u64 {
    chrono::Utc::now().timestamp_millis() as u64
}

/// The hosted addresses of a router, in order.
pub open spec fn locals_ids(r: &Router) -> Seq<Identity> {
    Seq::new(r.locals_seq().len(), |k: int| r.locals_seq()[k].0)
}

/// The framed peer-enumeration response for a router's hosted addresses.
pub open spec fn peers_response_bytes(r: &Router) -> Seq<u8> {
    blob_bytes(seq![3u8] + peers_bytes(PeersType::Resp, locals_ids(r)))
}

/// Build the framed response to a peer enumeration request.
pub fn peers_response(router: &Router) -> (r: Vec<u8>)
    requires
        router.locals_seq().len() <= 0xFF_FFFF,
    ensures
        r@ == peers_response_bytes(router),
{
    let ids = router.known_addresses();
    proof {
        assert(ids@ =~= locals_ids(router));
    }
    let msg = ApiMessage::Peers(PeersMsg { tipe: PeersType::Resp, peers: ids });
    let enc = encode_api(&msg);
    proof {
        lemma_ids_cat_len(locals_ids(router));
        assert(wf_blob(enc@));
    }
    frame_chunk(&enc)
}

/// One outbound dispatch: a frame chain and the peers to send it to.
pub struct Dispatch {
    pub frames: Vec<Frame>,
    pub targets: Vec<Peer>,
}

/// A dispatch carries one well-formed chain of the client's message under
/// some fresh sequence id: flood frames when the client flooded, else
/// frames addressed to one of the client's recipients.
pub open spec fn dispatch_ok(d: Dispatch, s: SendMsg, seen: Set<(Identity, u32)>, flood_peers: Seq<
    Peer,
>) -> bool {
    exists|sid: Identity, ts: TimeSig, rec: Recipient|
        #![trigger chain_wf(d.frames@, s.sender, rec, sid), payload_bytes(Payload { payload: s.payload, timesig: ts, sign: s.sign })]
        {
            &&& chain_wf(d.frames@, s.sender, rec, sid)
            &&& (s.flood ==> rec == Recipient::Flood && d.targets@ == flood_peers)
            &&& (!s.flood ==> (rec matches Recipient::User(u) && s.recipients@.contains(u)))
            &&& ts.received is None
            &&& concat_payloads(d.frames@) == payload_bytes(
                Payload { payload: s.payload, timesig: ts, sign: s.sign },
            )
            &&& seen.contains((sid, 0u32))
        }
}

/// Some dispatch carries a chain addressed to this recipient, bound for
/// the recipient's route.
pub open spec fn sends_to(r: Seq<Dispatch>, s: SendMsg, u: Identity, p: Peer) -> bool {
    exists|k: int, sid: Identity|
        #![trigger chain_wf(r[k].frames@, s.sender, Recipient::User(u), sid)]
        0 <= k < r.len() && chain_wf(r[k].frames@, s.sender, Recipient::User(u), sid)
            && r[k].targets@ == seq![p]
}

/// Expand one client send into router sends: one message per recipient, or
/// a single flood message.  Each message travels under a fresh random
/// sequence id with the send time stamped; a recipient without a route is
/// skipped, as send failures are logged, never surfaced to the client.
pub fn dispatch_send(
    router: &mut Router,
    s: &SendMsg,
    cap: usize,
    flood_peers: &Vec<Peer>,
) -> (r: Vec<Dispatch>)
    requires
        old(router).wf(),
        1 <= cap,
        s.payload@.len() + s.sign@.len() + cap <= 0xFFFF_FF00,
    ensures
        final(router).wf(),
        final(router).locals_seq() == old(router).locals_seq(),
        final(router).routes_seq() == old(router).routes_seq(),
        final(router).delivery_seq() == old(router).delivery_seq(),
        forall|k: int|
            0 <= k < r@.len() ==> dispatch_ok(#[trigger] r@[k], *s, final(router).seen(), flood_peers@),
        s.flood ==> r@.len() == 1,
        !s.flood ==> r@.len() <= s.recipients@.len(),
        !s.flood ==> forall|i: int|
            0 <= i < s.recipients@.len() ==> ((#[trigger] old(router).route_of(
                s.recipients@[i],
            )) matches Some(p) ==> sends_to(r@, *s, s.recipients@[i], p)),
{
    let mut out: Vec<Dispatch> = Vec::new();
    if s.flood {
        let sid = Identity::random();
        let sent = now_millis();
        let msg = Message {
            id: sid,
            sender: s.sender,
            recipient: Recipient::Flood,
            payload: copy_range(&s.payload, 0, s.payload.len()),
            timesig: TimeSig { sent, received: None },
            sign: copy_range(&s.sign, 0, s.sign.len()),
        };
        proof {
            assert(msg.payload@ =~= s.payload@);
            assert(msg.sign@ =~= s.sign@);
        }
        let res = router.send_prepared(&msg, sid, cap, flood_peers);
        match res {
            Ok((frames, targets)) => {
                let d = Dispatch { frames, targets };
                proof {
                    assert(msg_payload_bytes(msg) == payload_bytes(
                        Payload { payload: s.payload, timesig: msg.timesig, sign: s.sign },
                    ));
                    assert(chain_wf(d.frames@, s.sender, Recipient::Flood, sid));
                    assert(router.seen().contains((sid, 0u32))) by {
                        assert(crate::router::chain_keys(sid, d.frames@.len() as int).contains(
                            (sid, 0u32),
                        ));
                    }
                    assert(dispatch_ok(d, *s, router.seen(), flood_peers@));
                }
                out.push(d);
            }
            Err(_) => {
                proof {
                    // A flood send always has targets; the router cannot refuse it.
                    assert(false);
                }
            }
        }
    } else {
        let mut i: usize = 0;
        let n = s.recipients.len();
        while i < n
            invariant
                i <= n == s.recipients@.len(),
                !s.flood,
                router.wf(),
                1 <= cap,
                s.payload@.len() + s.sign@.len() + cap <= 0xFFFF_FF00,
                router.locals_seq() == old(router).locals_seq(),
                router.routes_seq() == old(router).routes_seq(),
                router.delivery_seq() == old(router).delivery_seq(),
                out@.len() <= i,
                forall|k: int|
                    0 <= k < out@.len() ==> dispatch_ok(
                        #[trigger] out@[k],
                        *s,
                        router.seen(),
                        flood_peers@,
                    ),
                forall|i2: int|
                    0 <= i2 < i ==> ((#[trigger] old(router).route_of(s.recipients@[i2]))
                        matches Some(p) ==> sends_to(out@, *s, s.recipients@[i2], p)),
            decreases n - i,
        {
            let dest = s.recipients[i];
            let sid = Identity::random();
            let sent = now_millis();
            let msg = Message {
                id: sid,
                sender: s.sender,
                recipient: Recipient::User(dest),
                payload: copy_range(&s.payload, 0, s.payload.len()),
                timesig: TimeSig { sent, received: None },
                sign: copy_range(&s.sign, 0, s.sign.len()),
            };
            proof {
                assert(msg.payload@ =~= s.payload@);
                assert(msg.sign@ =~= s.sign@);
            }
            let ghost seen0 = router.seen();
            let res = router.send_prepared(&msg, sid, cap, flood_peers);
            proof {
                assert forall|x: (Identity, u32)|
                    seen0.contains(x) implies #[trigger] router.seen().contains(x) by {
                    let n2 = choose|n2: int|
                        1 <= n2 && router.seen() == seen0.union(#[trigger] crate::router::chain_keys(sid, n2));
                }
                assert forall|k: int|
                    0 <= k < out@.len() implies dispatch_ok(
                    #[trigger] out@[k],
                    *s,
                    router.seen(),
                    flood_peers@,
                ) by {
                    let (sid2, ts2, rec2): (Identity, TimeSig, Recipient) = choose|
                        sid2: Identity,
                        ts2: TimeSig,
                        rec2: Recipient,
                    |
                        #![trigger chain_wf(out@[k].frames@, s.sender, rec2, sid2), payload_bytes(Payload { payload: s.payload, timesig: ts2, sign: s.sign })]
                        {
                            &&& chain_wf(out@[k].frames@, s.sender, rec2, sid2)
                            &&& (s.flood ==> rec2 == Recipient::Flood && out@[k].targets@
                                == flood_peers@)
                            &&& (!s.flood ==> (rec2 matches Recipient::User(u)
                                && s.recipients@.contains(u)))
                            &&& ts2.received is None
                            &&& concat_payloads(out@[k].frames@) == payload_bytes(
                                Payload { payload: s.payload, timesig: ts2, sign: s.sign },
                            )
                            &&& seen0.contains((sid2, 0u32))
                        };
                    assert(router.seen().contains((sid2, 0u32)));
                    assert(chain_wf(out@[k].frames@, s.sender, rec2, sid2));
                }
            }
            let ghost out0 = out@;
            match res {
                Ok((frames, targets)) => {
                    let d = Dispatch { frames, targets };
                    proof {
                        assert(msg_payload_bytes(msg) == payload_bytes(
                            Payload { payload: s.payload, timesig: msg.timesig, sign: s.sign },
                        ));
                        assert(s.recipients@.contains(dest)) by {
                            assert(s.recipients@[i as int] == dest);
                        }
                        assert(chain_wf(d.frames@, s.sender, Recipient::User(dest), sid));
                        assert(router.seen().contains((sid, 0u32))) by {
                            assert(crate::router::chain_keys(sid, d.frames@.len() as int).contains(
                                (sid, 0u32),
                            ));
                        }
                        assert(dispatch_ok(d, *s, router.seen(), flood_peers@));
                    }
                    out.push(d);
                    proof {
                        assert forall|i2: int|
                            0 <= i2 < i + 1 implies ((#[trigger] old(router).route_of(
                            s.recipients@[i2],
                        )) matches Some(p) ==> sends_to(out@, *s, s.recipients@[i2], p)) by {
                            match old(router).route_of(s.recipients@[i2]) {
                                Some(p) => {
                                    if i2 < i {
                                        let (k, sid2): (int, Identity) = choose|
                                            k: int,
                                            sid2: Identity,
                                        |
                                            0 <= k < out0.len() && #[trigger] chain_wf(
                                                out0[k].frames@,
                                                s.sender,
                                                Recipient::User(s.recipients@[i2]),
                                                sid2,
                                            ) && out0[k].targets@ == seq![p];
                                        assert(out@[k] == out0[k]);
                                        assert(chain_wf(
                                            out@[k].frames@,
                                            s.sender,
                                            Recipient::User(s.recipients@[i2]),
                                            sid2,
                                        ));
                                    } else {
                                        assert(out@[out@.len() - 1] == d);
                                        assert(d.targets@ == seq![p]);
                                        assert(chain_wf(
                                            out@[out@.len() - 1].frames@,
                                            s.sender,
                                            Recipient::User(dest),
                                            sid,
                                        ));
                                    }
                                }
                                None => {}
                            }
                        }
                    }
                }
                Err(_) => {
                    proof {
                        assert(old(router).route_of(dest) is None);
                        assert forall|i2: int|
                            0 <= i2 < i + 1 implies ((#[trigger] old(router).route_of(
                            s.recipients@[i2],
                        )) matches Some(p) ==> sends_to(out@, *s, s.recipients@[i2], p)) by {}
                    }
                }
            }
            i = i + 1;
        }
    }
    out
}


/// The outcome of one parsed client request: an optional framed response
/// for this session, and outbound dispatches for the transport.
pub struct RequestOutcome {
    pub response: Option<Vec<u8>>,
    pub outgoing: Vec<Dispatch>,
}

/// Whether a send's payload fits the wire limits for this frame capacity.
pub open spec fn send_fits(s: SendMsg, cap: int) -> bool {
    s.payload@.len() + s.sign@.len() + cap <= 0xFFFF_FF00
}

/// Dispatch one parsed request from an authenticated session: a send turns
/// into router sends, with oversized payloads dropped the way send
/// failures are logged and not surfaced; a peer enumeration request gets a
/// framed response; other setup messages and stray receive envelopes are
/// accepted silently.
pub fn handle_request(
    router: &mut Router,
    m: &ApiMessage,
    cap: usize,
    flood_peers: &Vec<Peer>,
) -> (r: RequestOutcome)
    requires
        old(router).wf(),
        1 <= cap,
        old(router).locals_seq().len() <= 0xFF_FFFF,
    ensures
        final(router).wf(),
        final(router).locals_seq() == old(router).locals_seq(),
        final(router).routes_seq() == old(router).routes_seq(),
        final(router).delivery_seq() == old(router).delivery_seq(),
        m matches ApiMessage::Peers(p) ==> ({
            &&& (p.tipe == PeersType::Req ==> (r.response matches Some(b) && b@
                == peers_response_bytes(old(router))))
            &&& (p.tipe != PeersType::Req ==> r.response is None)
            &&& r.outgoing@.len() == 0
            &&& final(router).seen() == old(router).seen()
        }),
        (m is Setup || m is Recv) ==> r.response is None && r.outgoing@.len() == 0 && final(router).seen() == old(router).seen(),
        m matches ApiMessage::SendMsg(s) ==> ({
            &&& r.response is None
            &&& (send_fits(*s, cap as int) ==> forall|k: int|
                0 <= k < r.outgoing@.len() ==> dispatch_ok(
                    #[trigger] r.outgoing@[k],
                    *s,
                    final(router).seen(),
                    flood_peers@,
                ))
            &&& (send_fits(*s, cap as int) && s.flood ==> r.outgoing@.len() == 1)
            &&& (send_fits(*s, cap as int) && !s.flood ==> forall|i: int|
                0 <= i < s.recipients@.len() ==> ((#[trigger] old(router).route_of(
                    s.recipients@[i],
                )) matches Some(p) ==> sends_to(r.outgoing@, *s, s.recipients@[i], p)))
            &&& (!send_fits(*s, cap as int) ==> r.outgoing@.len() == 0 && final(router).seen()
                == old(router).seen())
        }),
{
    match m {
        ApiMessage::SendMsg(s) => {
            let fits = (s.payload.len() as u128) + (s.sign.len() as u128) + (cap as u128)
                <= 0xFFFF_FF00u128;
            if fits {
                let outgoing = dispatch_send(router, s, cap, flood_peers);
                RequestOutcome { response: None, outgoing }
            } else {
                RequestOutcome { response: None, outgoing: Vec::new() }
            }
        }
        ApiMessage::Peers(p) => {
            match p.tipe {
                PeersType::Req => {
                    let resp = peers_response(router);
                    RequestOutcome { response: Some(resp), outgoing: Vec::new() }
                }
                PeersType::Resp => RequestOutcome { response: None, outgoing: Vec::new() },
            }
        }
        ApiMessage::Setup(_) => RequestOutcome { response: None, outgoing: Vec::new() },
        ApiMessage::Recv(_) => RequestOutcome { response: None, outgoing: Vec::new() },
    }
}

/// The framed receive envelope announcing one delivered message, with the
/// recipient field left empty for a flood.
pub open spec fn recv_envelope_bytes(msg: Message) -> Seq<u8> {
    blob_bytes(
        seq![2u8] + recv_bytes(
            msg.id,
            msg.sender,
            match msg.recipient {
                Recipient::User(u) => Some(u),
                Recipient::Flood => None,
            },
            msg.payload@,
            msg.timesig,
            msg.sign@,
        ),
    )
}

/// A streamer that queues framed receive envelopes for one session until
/// its writer can push them down the stream.
pub struct StreamResp {
    queue: Vec<Vec<u8>>,
}

impl StreamResp {
    /// The queued chunks, oldest first.
    pub closed spec fn queue_seq(&self) -> Seq<Seq<u8>> {
        self.queue@.map(|k: int, v: Vec<u8>| v@)
    }

    /// A fresh, empty streamer.
    pub fn new() -> (r: StreamResp)
        ensures
            r.queue_seq() == Seq::<Seq<u8>>::empty(),
    {
        let r = StreamResp { queue: Vec::new() };
        proof {
            assert(r.queue_seq() =~= Seq::<Seq<u8>>::empty());
        }
        r
    }

    /// Queue the receive envelope of one delivered message.
    pub fn respond(&mut self, msg: &Message)
        requires
            msg.payload@.len() + msg.sign@.len() <= 0xFFFF_0000,
        ensures
            final(self).queue_seq() == old(self).queue_seq().push(recv_envelope_bytes(*msg)),
    {
        let rm = Receive {
            id: msg.id,
            sender: msg.sender,
            recipient: match &msg.recipient {
                Recipient::User(u) => Some(*u),
                Recipient::Flood => None,
            },
            payload: copy_range(&msg.payload, 0, msg.payload.len()),
            timesig: msg.timesig,
            sign: copy_range(&msg.sign, 0, msg.sign.len()),
        };
        proof {
            assert(rm.payload@ =~= msg.payload@);
            assert(rm.sign@ =~= msg.sign@);
        }
        let enc = encode_api(&ApiMessage::Recv(rm));
        proof {
            assert(wf_blob(enc@));
        }
        let framed = frame_chunk(&enc);
        self.queue.push(framed);
        proof {
            assert(self.queue_seq() =~= old(self).queue_seq().push(recv_envelope_bytes(*msg)));
        }
    }

    /// Take the oldest queued chunk.
    pub fn take_next(&mut self) -> (r: Option<Vec<u8>>)
        ensures
            old(self).queue_seq().len() == 0 ==> r is None && final(self).queue_seq() == old(self).queue_seq(),
            old(self).queue_seq().len() > 0 ==> (r matches Some(v) && v@ == old(self).queue_seq()[0] && final(self).queue_seq() == old(self).queue_seq().skip(1)),
    {
        if self.queue.len() == 0 {
            None
        } else {
            let v = self.queue.remove(0);
            proof {
                assert(self.queue_seq() =~= old(self).queue_seq().skip(1));
            }
            Some(v)
        }
    }
}

/// Whether a delivered message is for the session of this address.
pub open spec fn relay_hits(id: Identity, msg: Message) -> bool {
    match msg.recipient {
        Recipient::User(u) => id == u,
        Recipient::Flood => true,
    }
}

/// The online map: one streamer per online session, keyed by address.
pub struct OnlineMap {
    sessions: Vec<(Identity, StreamResp)>,
}

impl OnlineMap {
    /// The sessions: each address with its queued chunks.
    pub closed spec fn sessions_view(&self) -> Seq<(Identity, Seq<Seq<u8>>)> {
        self.sessions@.map(|k: int, p: (Identity, StreamResp)| (p.0, p.1.queue_seq()))
    }

    /// No address has two sessions.
    pub closed spec fn wf(&self) -> bool {
        forall|i: int, j: int|
            0 <= i < j < self.sessions@.len() ==> (#[trigger] self.sessions@[i]).0 != (
            #[trigger] self.sessions@[j]).0
    }

    /// A fresh map with no sessions.
    pub fn new() -> (r: OnlineMap)
        ensures
            r.wf(),
            r.sessions_view() == Seq::<(Identity, Seq<Seq<u8>>)>::empty(),
    {
        let r = OnlineMap { sessions: Vec::new() };
        proof {
            assert(r.sessions_view() =~= Seq::<(Identity, Seq<Seq<u8>>)>::empty());
        }
        r
    }

    /// Register a session for an address that just came online.  A second
    /// session for the same address replaces the first, dropping whatever
    /// the dead session had queued.
    pub fn connect(&mut self, id: Identity)
        requires
            old(self).wf(),
            old(self).sessions_view().len() < usize::MAX,
        ensures
            final(self).wf(),
            (exists|i: int|
                0 <= i < old(self).sessions_view().len() && (
                #[trigger] old(self).sessions_view()[i]).0 == id) ==> final(self).sessions_view()
                == old(self).sessions_view().update(
                choose|i: int|
                    0 <= i < old(self).sessions_view().len() && (
                    #[trigger] old(self).sessions_view()[i]).0 == id,
                (id, Seq::<Seq<u8>>::empty()),
            ),
            (!exists|i: int|
                0 <= i < old(self).sessions_view().len() && (
                #[trigger] old(self).sessions_view()[i]).0 == id) ==> final(self).sessions_view()
                == old(self).sessions_view().push((id, Seq::<Seq<u8>>::empty())),
    {
        let mut i: usize = 0;
        let n = self.sessions.len();
        while i < n
            invariant
                i <= n == self.sessions@.len(),
                self == old(self),
                old(self).wf(),
                forall|j: int| 0 <= j < i ==> (#[trigger] self.sessions@[j]).0 != id,
            decreases n - i,
        {
            let hit = self.sessions[i].0 == id;
            if hit {
                self.sessions.set(i, (id, StreamResp::new()));
                proof {
                    assert(self.sessions@[i as int].0 == id);
                    assert((#[trigger] old(self).sessions_view()[i as int]).0 == id);
                    let w = choose|w: int|
                        0 <= w < old(self).sessions_view().len() && (
                        #[trigger] old(self).sessions_view()[w]).0 == id;
                    if w < i {
                        assert(old(self).sessions@[w].0 != id);
                    } else if w > i {
                        assert(old(self).sessions@[i as int].0 != old(self).sessions@[w].0);
                    }
                    assert(w == i);
                    assert(self.sessions_view() =~= old(self).sessions_view().update(
                        i as int,
                        (id, Seq::<Seq<u8>>::empty()),
                    ));
                    assert forall|i2: int, j2: int|
                        0 <= i2 < j2 < self.sessions@.len() implies (
                    #[trigger] self.sessions@[i2]).0 != (#[trigger] self.sessions@[j2]).0 by {
                        assert(self.sessions@[i2].0 == old(self).sessions@[i2].0);
                        assert(self.sessions@[j2].0 == old(self).sessions@[j2].0);
                        assert((#[trigger] old(self).sessions@[i2]).0 != (
                        #[trigger] old(self).sessions@[j2]).0);
                    }
                }
                return ;
            }
            i = i + 1;
        }
        self.sessions.push((id, StreamResp::new()));
        proof {
            assert forall|w: int|
                0 <= w < old(self).sessions_view().len() implies (
            #[trigger] old(self).sessions_view()[w]).0 != id by {
                assert(old(self).sessions@[w].0 != id);
            }
            assert(self.sessions_view() =~= old(self).sessions_view().push(
                (id, Seq::<Seq<u8>>::empty()),
            ));
            assert forall|i2: int, j2: int|
                0 <= i2 < j2 < self.sessions@.len() implies (#[trigger] self.sessions@[i2]).0 != (
            #[trigger] self.sessions@[j2]).0 by {
                if j2 < self.sessions@.len() - 1 {
                    assert(self.sessions@[i2] == old(self).sessions@[i2]);
                    assert(self.sessions@[j2] == old(self).sessions@[j2]);
                } else {
                    assert(self.sessions@[i2] == old(self).sessions@[i2]);
                    assert(self.sessions@[j2].0 == id);
                    assert(old(self).sessions@[i2].0 != id);
                }
            }
        }
    }

    /// Fan one delivered message out: a unicast message goes to the owning
    /// session only; a flood goes to every session.  Write failures on one
    /// session never touch the others, so each queue changes independently.
    pub fn relay(&mut self, msg: &Message)
        requires
            old(self).wf(),
            msg.payload@.len() + msg.sign@.len() <= 0xFFFF_0000,
        ensures
            final(self).wf(),
            final(self).sessions_view().len() == old(self).sessions_view().len(),
            forall|i: int|
                0 <= i < old(self).sessions_view().len() ==> (#[trigger] final(self).sessions_view()[i]).0 == old(self).sessions_view()[i].0 && final(self).sessions_view()[i].1 == (if relay_hits(old(self).sessions_view()[i].0, *msg) {
                    old(self).sessions_view()[i].1.push(recv_envelope_bytes(*msg))
                } else {
                    old(self).sessions_view()[i].1
                }),
    {
        let ghost env = recv_envelope_bytes(*msg);
        let mut i: usize = 0;
        let n = self.sessions.len();
        while i < n
            invariant
                i <= n == self.sessions@.len(),
                n == old(self).sessions@.len(),
                old(self).wf(),
                msg.payload@.len() + msg.sign@.len() <= 0xFFFF_0000,
                env == recv_envelope_bytes(*msg),
                forall|j: int|
                    i <= j < n ==> #[trigger] self.sessions@[j] == old(self).sessions@[j],
                forall|j: int|
                    0 <= j < i ==> (#[trigger] self.sessions@[j]).0 == old(self).sessions@[j].0
                        && self.sessions@[j].1.queue_seq() == (if relay_hits(
                        old(self).sessions@[j].0,
                        *msg,
                    ) {
                        old(self).sessions@[j].1.queue_seq().push(env)
                    } else {
                        old(self).sessions@[j].1.queue_seq()
                    }),
            decreases n - i,
        {
            let ghost before = self.sessions@;
            let hit = match (&self.sessions[i].0, &msg.recipient) {
                (u, Recipient::User(v)) => *u == *v,
                (_, Recipient::Flood) => true,
            };
            if hit {
                let mut pair = self.sessions.remove(i);
                pair.1.respond(msg);
                self.sessions.insert(i, pair);
                proof {
                    assert(self.sessions@ =~= before.update(i as int, self.sessions@[i as int]));
                    assert(self.sessions@[i as int].0 == before[i as int].0);
                    assert(self.sessions@[i as int].1.queue_seq()
                        == before[i as int].1.queue_seq().push(env));
                    assert(relay_hits(old(self).sessions@[i as int].0, *msg));
                }
            } else {
                proof {
                    assert(!relay_hits(old(self).sessions@[i as int].0, *msg));
                }
            }
            i = i + 1;
            proof {
                assert forall|j: int|
                    0 <= j < i implies (#[trigger] self.sessions@[j]).0 == old(self).sessions@[j].0 && self.sessions@[j].1.queue_seq() == (if relay_hits(
                    old(self).sessions@[j].0,
                    *msg,
                ) {
                    old(self).sessions@[j].1.queue_seq().push(env)
                } else {
                    old(self).sessions@[j].1.queue_seq()
                }) by {
                    if j < i - 1 {
                        assert(self.sessions@[j] == before[j]);
                    } else {
                        assert(before[j] == old(self).sessions@[j]);
                    }
                }
            }
        }
        proof {
            assert(final(self).sessions_view().len() == old(self).sessions_view().len());
            assert forall|i2: int|
                0 <= i2 < old(self).sessions_view().len() implies (#[trigger] self.sessions_view()[
                i2]).0 == old(self).sessions_view()[i2].0 && self.sessions_view()[i2].1 == (
            if relay_hits(old(self).sessions_view()[i2].0, *msg) {
                old(self).sessions_view()[i2].1.push(recv_envelope_bytes(*msg))
            } else {
                old(self).sessions_view()[i2].1
            }) by {
                assert(self.sessions_view()[i2] == (
                    self.sessions@[i2].0,
                    self.sessions@[i2].1.queue_seq(),
                ));
                assert(old(self).sessions_view()[i2] == (
                    old(self).sessions@[i2].0,
                    old(self).sessions@[i2].1.queue_seq(),
                ));
            }
            assert forall|i2: int, j2: int|
                0 <= i2 < j2 < self.sessions@.len() implies (#[trigger] self.sessions@[i2]).0 != (
            #[trigger] self.sessions@[j2]).0 by {
                assert((#[trigger] old(self).sessions@[i2]).0 != (
                #[trigger] old(self).sessions@[j2]).0);
            }
        }
    }

    /// Take the oldest pending chunk for an address's session.  The result
    /// is empty exactly when no session keyed by the address has a chunk
    /// pending; a taken chunk leaves every other session untouched.
    #[verifier::rlimit(60)]
    pub fn next_chunk(&mut self, id: &Identity) -> (r: Option<Vec<u8>>)
        requires
            old(self).wf(),
        ensures
            final(self).wf(),
            final(self).sessions_view().len() == old(self).sessions_view().len(),
            forall|i: int|
                0 <= i < old(self).sessions_view().len() ==> (#[trigger] final(self).sessions_view()[i]).0 == old(self).sessions_view()[i].0,
            r is None ==> final(self).sessions_view() == old(self).sessions_view(),
            r is None <==> !(exists|i: int|
                0 <= i < old(self).sessions_view().len() && (
                #[trigger] old(self).sessions_view()[i]).0 == *id && old(self).sessions_view()[i].1.len() > 0),
            r matches Some(v) ==> exists|i: int|
                0 <= i < old(self).sessions_view().len() && (
                #[trigger] old(self).sessions_view()[i]).0 == *id && old(self).sessions_view()[i].1.len() > 0 && v@ == old(self).sessions_view()[i].1[0]
                    && final(self).sessions_view()[i].1 == old(self).sessions_view()[i].1.skip(1)
                    && (forall|j: int|
                    0 <= j < old(self).sessions_view().len() && j != i ==> #[trigger] final(self).sessions_view()[j] == old(self).sessions_view()[j]),
    {
        let mut i: usize = 0;
        let n = self.sessions.len();
        while i < n
            invariant
                i <= n == self.sessions@.len(),
                self == old(self),
                old(self).wf(),
                forall|j: int| 0 <= j < i ==> (#[trigger] self.sessions@[j]).0 != *id,
            decreases n - i,
        {
            let hit = self.sessions[i].0 == *id;
            if hit {
                let ghost before = self.sessions@;
                let mut pair = self.sessions.remove(i);
                let r = pair.1.take_next();
                self.sessions.insert(i, pair);
                proof {
                    assert(self.sessions@ =~= before.update(i as int, self.sessions@[i as int]));
                    assert forall|i2: int, j2: int|
                        0 <= i2 < j2 < self.sessions@.len() implies (
                    #[trigger] self.sessions@[i2]).0 != (#[trigger] self.sessions@[j2]).0 by {
                        assert(self.sessions@[i2].0 == old(self).sessions@[i2].0);
                        assert(self.sessions@[j2].0 == old(self).sessions@[j2].0);
                        assert((#[trigger] old(self).sessions@[i2]).0 != (
                        #[trigger] old(self).sessions@[j2]).0);
                    }
                    assert forall|i2: int|
                        0 <= i2 < old(self).sessions_view().len() implies (#[trigger] self.sessions_view()[i2]).0
                        == old(self).sessions_view()[i2].0 by {}
                }
                match r {
                    Some(v) => {
                        proof {
                            assert((#[trigger] old(self).sessions_view()[i as int]).0 == *id);
                            assert(old(self).sessions_view()[i as int].1.len() > 0);
                            assert(v@ == old(self).sessions_view()[i as int].1[0]);
                            assert(self.sessions_view()[i as int].1 == old(self).sessions_view()[i as int].1.skip(1));
                            assert forall|j: int|
                                0 <= j < old(self).sessions_view().len() && j != i implies
                                #[trigger] self.sessions_view()[j] == old(self).sessions_view()[j] by {
                                assert(self.sessions@[j] == old(self).sessions@[j]);
                                assert(self.sessions_view()[j] == (
                                    self.sessions@[j].0,
                                    self.sessions@[j].1.queue_seq(),
                                ));
                                assert(old(self).sessions_view()[j] == (
                                    old(self).sessions@[j].0,
                                    old(self).sessions@[j].1.queue_seq(),
                                ));
                            }
                        }
                        return Some(v);
                    }
                    None => {
                        proof {
                            assert(self.sessions_view() =~= old(self).sessions_view());
                            assert forall|j: int|
                                0 <= j < old(self).sessions_view().len() implies !((
                            #[trigger] old(self).sessions_view()[j]).0 == *id && old(self).sessions_view()[j].1.len() > 0) by {
                                if j != i {
                                    assert((#[trigger] old(self).sessions@[j]).0 != old(self).sessions@[i as int].0 || old(self).sessions@[i as int].0
                                        != old(self).sessions@[j].0 || j == i);
                                    if old(self).sessions_view()[j].0 == *id {
                                        if j < i {
                                            assert(old(self).sessions@[j].0 != old(self).sessions@[i as int].0);
                                        } else {
                                            assert(old(self).sessions@[i as int].0 != old(self).sessions@[j].0);
                                        }
                                        assert(old(self).sessions@[j].0 == *id);
                                        assert(old(self).sessions@[i as int].0 == *id);
                                    }
                                } else {
                                    assert(old(self).sessions_view()[j].1.len() == 0);
                                }
                            }
                        }
                        return None;
                    }
                }
            }
            i = i + 1;
        }
        proof {
            assert forall|j: int|
                0 <= j < old(self).sessions_view().len() implies !((
            #[trigger] old(self).sessions_view()[j]).0 == *id && old(self).sessions_view()[j].1.len() > 0) by {
                assert(old(self).sessions_view()[j].0 == old(self).sessions@[j].0);
                assert(self.sessions@[j].0 != *id);
            }
        }
        None
    }
}

} // verus!