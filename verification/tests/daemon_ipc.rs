//! The IPC surface: the handshake table, framed request parsing, peer
//! enumeration, send expansion, and the relay fan-out.

use ratman::daemon::{
    decode_api, dispatch_send, encode_api, frame_chunk, handle_auth, handle_request,
    parse_framed, ApiMessage, IpcError, OnlineMap, PeersMsg, PeersType, Receive, SendMsg, Setup,
    SetupType, StreamResp,
};
use ratman::codec::decode_blob;
use ratman::model::{Identity, Message, Recipient, TimeSig};
use ratman::router::Router;

fn id(n: u64) -> Identity {
    Identity { w0: n, w1: 2 * n, w2: 3 * n, w3: 4 * n }
}

fn setup(tipe: SetupType, who: Option<Identity>, token: Option<Vec<u8>>) -> ApiMessage {
    ApiMessage::Setup(Setup { tipe, id: who, token })
}

/// Read back the single framed message a byte string holds.
fn parse_whole(bytes: &Vec<u8>) -> ApiMessage {
    let (m, used) = parse_framed(bytes, 0).expect("parses");
    assert_eq!(used, bytes.len());
    m
}

#[test]
fn fresh_client_gets_an_ack_with_its_new_address() {
    let mut router = Router::new();
    let fresh = id(0xF);
    let m = setup(SetupType::Online, None, None);
    let (who, ack) = handle_auth(&mut router, &m, fresh).expect("accepted");
    assert_eq!(who, Some(fresh));
    match parse_whole(&ack) {
        ApiMessage::Setup(s) => {
            assert_eq!(s.tipe, SetupType::OnlineAck);
            assert_eq!(s.id, Some(fresh));
        }
        _ => panic!("ack must be a setup message"),
    }
    // The registered address shows up in a peer enumeration.
    let req = ApiMessage::Peers(PeersMsg { tipe: PeersType::Req, peers: Vec::new() });
    let out = handle_request(&mut router, &req, 64, &Vec::new());
    let resp = out.response.expect("a response");
    match parse_whole(&resp) {
        ApiMessage::Peers(p) => {
            assert_eq!(p.tipe, PeersType::Resp);
            assert_eq!(p.peers, vec![fresh]);
        }
        _ => panic!("response must be a peers message"),
    }
}

#[test]
fn known_client_goes_online() {
    let mut router = Router::new();
    let a = id(0xA);
    let m = setup(SetupType::Online, Some(a), Some(vec![1, 2, 3]));
    let (who, ack) = handle_auth(&mut router, &m, id(0xF)).expect("accepted");
    assert_eq!(who, Some(a));
    match parse_whole(&ack) {
        ApiMessage::Setup(s) => assert_eq!(s.id, Some(a)),
        _ => panic!("ack must be a setup message"),
    }
}

#[test]
fn anonymous_client_gets_no_address() {
    let mut router = Router::new();
    let m = setup(SetupType::Anonymous, None, None);
    let (who, ack) = handle_auth(&mut router, &m, id(0xF)).expect("accepted");
    assert_eq!(who, None);
    assert!(ack.is_empty());
}

#[test]
fn bad_handshakes_are_refused() {
    let mut router = Router::new();
    // An id without a token.
    let m = setup(SetupType::Online, Some(id(1)), None);
    assert_eq!(handle_auth(&mut router, &m, id(0xF)).err(), Some(IpcError::InvalidAuth));
    // A token without an id.
    let m = setup(SetupType::Online, None, Some(vec![1]));
    assert_eq!(handle_auth(&mut router, &m, id(0xF)).err(), Some(IpcError::InvalidAuth));
    // A first message that is no handshake at all.
    let m = ApiMessage::Peers(PeersMsg { tipe: PeersType::Req, peers: Vec::new() });
    assert_eq!(handle_auth(&mut router, &m, id(0xF)).err(), Some(IpcError::InvalidAuth));
    // A stray acknowledgement.
    let m = setup(SetupType::OnlineAck, Some(id(1)), None);
    assert_eq!(handle_auth(&mut router, &m, id(0xF)).err(), Some(IpcError::InvalidAuth));
}

#[test]
fn api_messages_roundtrip_through_framing() {
    let messages = vec![
        setup(SetupType::Online, Some(id(1)), Some(vec![9])),
        ApiMessage::SendMsg(SendMsg {
            sender: id(2),
            flood: false,
            recipients: vec![id(3), id(4)],
            payload: vec![1, 2, 3],
            sign: vec![5],
        }),
        ApiMessage::Recv(Receive {
            id: id(5),
            sender: id(6),
            recipient: Some(id(7)),
            payload: vec![8, 9],
            timesig: TimeSig { sent: 11, received: Some(22) },
            sign: Vec::new(),
        }),
        ApiMessage::Peers(PeersMsg { tipe: PeersType::Resp, peers: vec![id(8)] }),
    ];
    for m in &messages {
        let enc = encode_api(m);
        let framed = frame_chunk(&enc);
        let back = parse_whole(&framed);
        match (m, &back) {
            (ApiMessage::Setup(x), ApiMessage::Setup(y)) => {
                assert_eq!(x.tipe, y.tipe);
                assert_eq!(x.id, y.id);
                assert_eq!(x.token, y.token);
            }
            (ApiMessage::SendMsg(x), ApiMessage::SendMsg(y)) => {
                assert_eq!(x.sender, y.sender);
                assert_eq!(x.flood, y.flood);
                assert_eq!(x.recipients, y.recipients);
                assert_eq!(x.payload, y.payload);
                assert_eq!(x.sign, y.sign);
            }
            (ApiMessage::Recv(x), ApiMessage::Recv(y)) => {
                assert_eq!(x.id, y.id);
                assert_eq!(x.sender, y.sender);
                assert_eq!(x.recipient, y.recipient);
                assert_eq!(x.payload, y.payload);
                assert_eq!(x.timesig.sent, y.timesig.sent);
                assert_eq!(x.timesig.received, y.timesig.received);
                assert_eq!(x.sign, y.sign);
            }
            (ApiMessage::Peers(x), ApiMessage::Peers(y)) => {
                assert_eq!(x.tipe, y.tipe);
                assert_eq!(x.peers, y.peers);
            }
            _ => panic!("variant changed in the round trip"),
        }
    }
}

#[test]
fn truncated_frames_do_not_parse() {
    let enc = encode_api(&setup(SetupType::Anonymous, None, None));
    let mut framed = frame_chunk(&enc);
    framed.pop();
    assert!(parse_framed(&framed, 0).is_none());
    assert!(parse_framed(&Vec::new(), 0).is_none());
}

#[test]
fn client_send_reaches_the_peer_daemon() {
    let a = id(0xA);
    let b = id(0xB);
    // Daemon one hosts a and routes to b's node.
    let mut one = Router::new();
    one.add_user(a).unwrap();
    one.add_route(b, ratman::model::Peer { ip: 1, port: 1 });
    let send = SendMsg {
        sender: a,
        flood: false,
        recipients: vec![b],
        payload: b"ping".to_vec(),
        sign: Vec::new(),
    };
    let out = handle_request(&mut one, &ApiMessage::SendMsg(send), 8, &Vec::new());
    assert!(out.response.is_none());
    assert_eq!(out.outgoing.len(), 1);

    // Daemon two hosts b; the frames arrive and the message is relayed to
    // b's session.
    let mut two = Router::new();
    two.add_user(b).unwrap();
    two.online(b).unwrap();
    for f in &out.outgoing[0].frames {
        two.intake(f.clone(), 77);
    }
    let m = two.next().expect("delivered");
    assert_eq!(m.payload, b"ping".to_vec());
    assert_eq!(m.sender, a);

    let mut online = OnlineMap::new();
    online.connect(b);
    online.relay(&m);
    let chunk = online.next_chunk(&b).expect("a pending envelope");
    match parse_whole(&chunk) {
        ApiMessage::Recv(r) => {
            assert_eq!(r.payload, b"ping".to_vec());
            assert_eq!(r.sender, a);
            assert_eq!(r.recipient, Some(b));
        }
        _ => panic!("the relay writes receive envelopes"),
    }
    assert!(online.next_chunk(&b).is_none());
}

#[test]
fn flood_relays_to_every_session_and_unicast_to_one() {
    let a = id(0xA);
    let b = id(0xB);
    let mut online = OnlineMap::new();
    online.connect(a);
    online.connect(b);

    let flood = Message {
        id: id(1),
        sender: id(2),
        recipient: Recipient::Flood,
        payload: vec![1],
        timesig: TimeSig { sent: 0, received: Some(1) },
        sign: Vec::new(),
    };
    online.relay(&flood);
    assert!(online.next_chunk(&a).is_some());
    assert!(online.next_chunk(&b).is_some());

    let personal = Message { recipient: Recipient::User(b), ..flood };
    online.relay(&personal);
    assert!(online.next_chunk(&a).is_none());
    let chunk = online.next_chunk(&b).expect("only the owner gets it");
    match parse_whole(&chunk) {
        ApiMessage::Recv(r) => assert_eq!(r.recipient, Some(b)),
        _ => panic!("the relay writes receive envelopes"),
    }
}

#[test]
fn dispatch_send_skips_unrouted_recipients() {
    let a = id(0xA);
    let mut router = Router::new();
    router.add_route(id(1), ratman::model::Peer { ip: 9, port: 9 });
    let send = SendMsg {
        sender: a,
        flood: false,
        recipients: vec![id(1), id(2)],
        payload: vec![7],
        sign: Vec::new(),
    };
    let out = dispatch_send(&mut router, &send, 16, &Vec::new());
    assert_eq!(out.len(), 1, "the routed recipient only");
}

#[test]
fn stream_responder_queues_in_order() {
    let mut stream = StreamResp::new();
    assert!(stream.take_next().is_none());
    let m1 = Message {
        id: id(1),
        sender: id(2),
        recipient: Recipient::Flood,
        payload: vec![1],
        timesig: TimeSig { sent: 0, received: None },
        sign: Vec::new(),
    };
    let m2 = Message { payload: vec![2], ..m1.clone() };
    stream.respond(&m1);
    stream.respond(&m2);
    let c1 = stream.take_next().expect("first");
    let c2 = stream.take_next().expect("second");
    assert!(stream.take_next().is_none());
    let (chunk1, _) = decode_blob(&c1, 0).expect("framed");
    let (m, _) = decode_api(&chunk1, 0).expect("decodes");
    match m {
        ApiMessage::Recv(r) => assert_eq!(r.payload, vec![1]),
        _ => panic!("receive envelope expected"),
    }
    let (chunk2, _) = decode_blob(&c2, 0).expect("framed");
    let (m, _) = decode_api(&chunk2, 0).expect("decodes");
    match m {
        ApiMessage::Recv(r) => assert_eq!(r.payload, vec![2]),
        _ => panic!("receive envelope expected"),
    }
}

#[test]
fn flood_send_produces_one_dispatch() {
    let mut router = Router::new();
    let send = SendMsg {
        sender: id(1),
        flood: true,
        recipients: Vec::new(),
        payload: vec![3],
        sign: Vec::new(),
    };
    let peers = vec![ratman::model::Peer { ip: 1, port: 2 }];
    let out = dispatch_send(&mut router, &send, 16, &peers);
    assert_eq!(out.len(), 1, "a flood send is never dropped");
    assert_eq!(out[0].targets, peers);
}
