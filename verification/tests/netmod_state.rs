//! The netmod state machine: discovery envelopes teach the address table,
//! data envelopes from known peers queue frames, and everything else is
//! dropped without harm.

use ratman::codec::{encode_envelope, Envelope};
use ratman::model::{Frame, Identity, Peer, Recipient, SeqData};
use ratman::netmod::{SocketState, Target};

fn id(n: u64) -> Identity {
    Identity { w0: n, w1: n, w2: n, w3: n }
}

fn peer(port: u16) -> Peer {
    Peer { ip: 0x7F000001, port }
}

fn data_frame() -> Frame {
    Frame {
        sender: id(1),
        recipient: Recipient::User(id(2)),
        seq: SeqData { seqid: id(3), num: 0, next: None },
        payload: vec![4, 5, 6],
    }
}

#[test]
fn announce_learns_the_peer_and_asks_for_a_reply() {
    let mut state = SocketState::new();
    let datagram = encode_envelope(&Envelope::Announce);
    let reply = state.incoming(&datagram, peer(10000));
    assert!(reply, "an announce is answered");
    assert_eq!(state.all_peers(), vec![peer(10000)]);
    assert!(state.next_frame().is_none());
}

#[test]
fn reply_learns_the_peer_silently() {
    let mut state = SocketState::new();
    let datagram = encode_envelope(&Envelope::Reply);
    let reply = state.incoming(&datagram, peer(10001));
    assert!(!reply);
    assert_eq!(state.all_peers(), vec![peer(10001)]);
}

#[test]
fn discovery_introduces_both_nodes() {
    // Two nodes exchange announce and reply; each learns the other.
    let mut one = SocketState::new();
    let mut two = SocketState::new();
    let announce = encode_envelope(&Envelope::Announce);
    let must_reply = two.incoming(&announce, peer(10000));
    assert!(must_reply);
    let reply = encode_envelope(&Envelope::Reply);
    let answered = one.incoming(&reply, peer(10001));
    assert!(!answered);
    assert_eq!(one.all_peers(), vec![peer(10001)]);
    assert_eq!(two.all_peers(), vec![peer(10000)]);
}

#[test]
fn data_from_a_known_peer_is_queued_with_its_id() {
    let mut state = SocketState::new();
    state.incoming(&encode_envelope(&Envelope::Announce), peer(10000));
    let datagram = encode_envelope(&Envelope::Data(data_frame()));
    let reply = state.incoming(&datagram, peer(10000));
    assert!(!reply);
    let fe = state.next_frame().expect("queued");
    assert_eq!(fe.frame.payload, vec![4, 5, 6]);
    assert_eq!(fe.frame.sender, id(1));
    match fe.target {
        Target::Single(k) => assert_eq!(state.peer_of(k), Some(peer(10000))),
        Target::Flood => panic!("arrival target is the peer id"),
    }
    assert!(state.next_frame().is_none());
}

#[test]
fn data_from_an_unknown_peer_is_dropped() {
    let mut state = SocketState::new();
    let datagram = encode_envelope(&Envelope::Data(data_frame()));
    let reply = state.incoming(&datagram, peer(12345));
    assert!(!reply);
    assert!(state.next_frame().is_none());
    assert!(state.all_peers().is_empty());
}

#[test]
fn malformed_datagrams_do_not_disturb_the_state() {
    let mut state = SocketState::new();
    state.incoming(&encode_envelope(&Envelope::Announce), peer(1));
    for bad in [Vec::new(), vec![7u8], vec![2u8, 0, 0, 0, 99, 1]] {
        let reply = state.incoming(&bad, peer(1));
        assert!(!reply);
    }
    assert_eq!(state.all_peers(), vec![peer(1)]);
    assert!(state.next_frame().is_none());
}

#[test]
fn inbox_is_first_in_first_out() {
    let mut state = SocketState::new();
    state.incoming(&encode_envelope(&Envelope::Announce), peer(1));
    for n in 0..3u8 {
        let mut f = data_frame();
        f.payload = vec![n];
        state.incoming(&encode_envelope(&Envelope::Data(f)), peer(1));
    }
    for n in 0..3u8 {
        assert_eq!(state.next_frame().expect("queued").frame.payload, vec![n]);
    }
    assert!(state.next_frame().is_none());
}

#[test]
fn announcing_twice_keeps_the_peer_id() {
    let mut state = SocketState::new();
    let announce = encode_envelope(&Envelope::Announce);
    state.incoming(&announce, peer(5));
    state.incoming(&announce, peer(6));
    state.incoming(&announce, peer(5));
    assert_eq!(state.all_peers(), vec![peer(5), peer(6)]);
}
