//! The router core: unicast send and delivery, flood and reflood, the
//! anti-loop journal on intake, and the user bookkeeping.

use ratman::model::{Identity, Message, Peer, RatmanError, Recipient, TimeSig};
use ratman::router::Router;

fn id(n: u64) -> Identity {
    Identity { w0: n, w1: n, w2: n, w3: n }
}

fn peer(port: u16) -> Peer {
    Peer { ip: 0x7F000001, port }
}

fn message(sender: Identity, recipient: Recipient, payload: Vec<u8>) -> Message {
    Message {
        id: id(0),
        sender,
        recipient,
        payload,
        timesig: TimeSig { sent: 1000, received: None },
        sign: Vec::new(),
    }
}

#[test]
fn unicast_send_reaches_the_recipient_router() {
    let a = id(0xA);
    let b = id(0xB);
    let seqid = id(0x5E);

    // Sender side: a route to b.
    let mut sender = Router::new();
    sender.add_route(b, peer(10001));
    let msg = message(a, Recipient::User(b), b"hello".to_vec());
    let (frames, targets) = sender
        .send_prepared(&msg, seqid, 4, &Vec::new())
        .expect("a route exists");
    assert_eq!(targets, vec![peer(10001)]);
    assert!(frames.len() > 1, "the payload spans several frames at capacity four");

    // Receiver side: b is hosted locally.
    let mut receiver = Router::new();
    receiver.add_user(b).unwrap();
    receiver.online(b).unwrap();
    let mut delivered = 0;
    for f in &frames {
        let outcome = receiver.intake(f.clone(), 2000);
        assert!(!outcome.duplicate);
        assert!(!outcome.reflood);
        if outcome.delivered {
            delivered += 1;
        }
    }
    assert_eq!(delivered, 1);
    let m = receiver.next().expect("one message");
    assert_eq!(m.payload, b"hello".to_vec());
    assert_eq!(m.sender, a);
    assert_eq!(m.id, seqid);
    assert_eq!(m.timesig.sent, 1000);
    assert_eq!(m.timesig.received, Some(2000));
    assert!(receiver.next().is_none());
}

#[test]
fn send_without_route_is_refused() {
    let mut router = Router::new();
    let msg = message(id(1), Recipient::User(id(2)), vec![1]);
    let r = router.send_prepared(&msg, id(3), 8, &Vec::new());
    assert_eq!(r.err(), Some(RatmanError::NoRoute));
}

#[test]
fn flood_send_targets_every_known_peer() {
    let mut router = Router::new();
    let peers = vec![peer(1), peer(2), peer(3)];
    let msg = message(id(1), Recipient::Flood, vec![42]);
    let (frames, targets) = router.send_prepared(&msg, id(9), 64, &peers).expect("flood");
    assert_eq!(targets, peers);
    assert_eq!(frames.len(), 1);
}

#[test]
fn intake_drops_a_journalled_frame() {
    let b = id(0xB);
    let mut sender = Router::new();
    sender.add_route(b, peer(1));
    let msg = message(id(0xA), Recipient::User(b), vec![5; 64]);
    let (frames, _) = sender.send_prepared(&msg, id(7), 16, &Vec::new()).unwrap();

    let mut receiver = Router::new();
    receiver.add_user(b).unwrap();
    let first = receiver.intake(frames[0].clone(), 1);
    assert!(!first.duplicate);
    // A later frame of the same sequence is new work, not a duplicate.
    let second = receiver.intake(frames[1].clone(), 1);
    assert!(!second.duplicate);
    // The same frame retransmitted is dropped by the journal.
    let again = receiver.intake(frames[0].clone(), 1);
    assert!(again.duplicate);
    assert!(!again.delivered);
}

#[test]
fn flood_frames_are_marked_for_reflood() {
    let mut origin = Router::new();
    let msg = message(id(0xA), Recipient::Flood, vec![9]);
    let (frames, _) = origin.send_prepared(&msg, id(7), 64, &vec![peer(1)]).unwrap();

    // A pure relay hosts nothing; it refloods and still collects the flood.
    let mut relay = Router::new();
    let outcome = relay.intake(frames[0].clone(), 3);
    assert!(!outcome.duplicate);
    assert!(outcome.reflood);
    assert!(outcome.delivered, "a single flood frame completes at once");
    assert_eq!(relay.next().expect("flood delivered").payload, vec![9]);
}

#[test]
fn unicast_for_someone_else_is_not_collected() {
    let b = id(0xB);
    let mut sender = Router::new();
    sender.add_route(b, peer(1));
    let msg = message(id(0xA), Recipient::User(b), vec![1, 2, 3]);
    let (frames, _) = sender.send_prepared(&msg, id(7), 64, &Vec::new()).unwrap();

    // This node does not host b: it neither refloods nor delivers.
    let mut bystander = Router::new();
    let outcome = bystander.intake(frames[0].clone(), 3);
    assert!(!outcome.duplicate);
    assert!(!outcome.reflood);
    assert!(!outcome.delivered);
    assert!(bystander.next().is_none());
}

#[test]
fn user_bookkeeping() {
    let mut router = Router::new();
    let a = id(1);
    assert_eq!(router.add_user(a), Ok(()));
    assert_eq!(router.add_user(a), Err(RatmanError::DuplicateUser));
    assert_eq!(router.online(id(2)), Err(RatmanError::UnknownUser));
    assert_eq!(router.online(a), Ok(()));
    assert_eq!(router.known_addresses(), vec![a]);
}

#[test]
fn empty_payload_message_travels() {
    let b = id(0xB);
    let mut sender = Router::new();
    sender.add_route(b, peer(1));
    let msg = message(id(0xA), Recipient::User(b), Vec::new());
    let (frames, _) = sender.send_prepared(&msg, id(7), 32, &Vec::new()).unwrap();

    let mut receiver = Router::new();
    receiver.add_user(b).unwrap();
    let mut delivered = 0;
    for f in &frames {
        if receiver.intake(f.clone(), 1).delivered {
            delivered += 1;
        }
    }
    assert_eq!(delivered, 1);
    assert!(receiver.next().expect("delivered").payload.is_empty());
}
