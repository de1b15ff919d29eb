//! Wire codec behaviour: envelope round trips, exact encodings, and the
//! treatment of malformed or padded datagrams.

use ratman::codec::{
    decode_envelope, decode_payload, encode_envelope, encode_payload, Envelope,
};
use ratman::model::{Frame, Identity, Payload, Recipient, SeqData, TimeSig};

fn id(n: u64) -> Identity {
    Identity { w0: n, w1: n.wrapping_mul(3), w2: n.wrapping_add(7), w3: !n }
}

fn zero_id() -> Identity {
    Identity { w0: 0, w1: 0, w2: 0, w3: 0 }
}

#[test]
fn announce_exact_bytes() {
    let bytes = encode_envelope(&Envelope::Announce);
    assert_eq!(bytes, vec![0u8]);
}

#[test]
fn reply_exact_bytes() {
    let bytes = encode_envelope(&Envelope::Reply);
    assert_eq!(bytes, vec![1u8]);
}

#[test]
fn data_exact_bytes() {
    // A frame with all-zero ids, flood recipient, number one, terminal,
    // and a single payload byte.
    let frame = Frame {
        sender: zero_id(),
        recipient: Recipient::Flood,
        seq: SeqData { seqid: zero_id(), num: 1, next: None },
        payload: vec![0xAB],
    };
    let bytes = encode_envelope(&Envelope::Data(frame));
    let mut expected: Vec<u8> = Vec::new();
    expected.push(2); // data tag
    expected.extend_from_slice(&[0, 0, 0, 75]); // inner frame length
    expected.extend_from_slice(&[0u8; 32]); // sender
    expected.push(1); // flood recipient tag
    expected.extend_from_slice(&[0u8; 32]); // sequence id
    expected.extend_from_slice(&[0, 0, 0, 1]); // number
    expected.push(0); // no successor
    expected.extend_from_slice(&[0, 0, 0, 1]); // payload length
    expected.push(0xAB);
    assert_eq!(bytes, expected);
}

#[test]
fn envelope_roundtrip_announce_and_reply() {
    for env in [Envelope::Announce, Envelope::Reply] {
        let bytes = encode_envelope(&env);
        let (back, used) = decode_envelope(&bytes, 0).expect("decodes");
        assert_eq!(used, bytes.len());
        match (&env, &back) {
            (Envelope::Announce, Envelope::Announce) => {}
            (Envelope::Reply, Envelope::Reply) => {}
            _ => panic!("wrong variant"),
        }
    }
}

#[test]
fn envelope_roundtrip_data() {
    let frame = Frame {
        sender: id(5),
        recipient: Recipient::User(id(9)),
        seq: SeqData { seqid: id(11), num: 3, next: Some(id(11)) },
        payload: vec![1, 2, 3, 4, 5],
    };
    let bytes = encode_envelope(&Envelope::Data(frame.clone()));
    let (back, used) = decode_envelope(&bytes, 0).expect("decodes");
    assert_eq!(used, bytes.len());
    match back {
        Envelope::Data(f) => {
            assert_eq!(f.sender, frame.sender);
            assert_eq!(f.recipient, frame.recipient);
            assert_eq!(f.seq.seqid, frame.seq.seqid);
            assert_eq!(f.seq.num, frame.seq.num);
            assert_eq!(f.seq.next, frame.seq.next);
            assert_eq!(f.payload, frame.payload);
        }
        _ => panic!("wrong variant"),
    }
}

#[test]
fn envelope_tolerates_trailing_padding() {
    // A datagram buffer is larger than the envelope it carries.
    let frame = Frame {
        sender: id(1),
        recipient: Recipient::Flood,
        seq: SeqData { seqid: id(2), num: 0, next: None },
        payload: vec![9, 9, 9],
    };
    let mut bytes = encode_envelope(&Envelope::Data(frame));
    let wire_len = bytes.len();
    bytes.resize(8192, 0);
    let (back, used) = decode_envelope(&bytes, 0).expect("decodes despite padding");
    assert_eq!(used, wire_len);
    match back {
        Envelope::Data(f) => assert_eq!(f.payload, vec![9, 9, 9]),
        _ => panic!("wrong variant"),
    }
}

#[test]
fn malformed_envelopes_are_rejected() {
    // Empty datagram.
    assert!(decode_envelope(&Vec::new(), 0).is_none());
    // Unknown tag byte.
    assert!(decode_envelope(&vec![9u8, 0, 0], 0).is_none());
    // Data tag with a truncated frame.
    assert!(decode_envelope(&vec![2u8, 0, 0, 0, 40, 1, 2, 3], 0).is_none());
    // Data tag whose length prefix overruns the buffer.
    assert!(decode_envelope(&vec![2u8, 0xFF, 0xFF, 0xFF, 0xFF], 0).is_none());
}

#[test]
fn payload_roundtrip() {
    let p = Payload {
        payload: vec![10, 20, 30],
        timesig: TimeSig { sent: 123456789, received: Some(987654321) },
        sign: vec![7, 7],
    };
    let bytes = encode_payload(&p);
    let (back, used) = decode_payload(&bytes, 0).expect("decodes");
    assert_eq!(used, bytes.len());
    assert_eq!(back.payload, p.payload);
    assert_eq!(back.timesig.sent, p.timesig.sent);
    assert_eq!(back.timesig.received, p.timesig.received);
    assert_eq!(back.sign, p.sign);
}

#[test]
fn payload_roundtrip_without_receive_stamp() {
    let p = Payload {
        payload: Vec::new(),
        timesig: TimeSig { sent: 0, received: None },
        sign: Vec::new(),
    };
    let bytes = encode_payload(&p);
    let (back, used) = decode_payload(&bytes, 0).expect("decodes");
    assert_eq!(used, bytes.len());
    assert!(back.payload.is_empty());
    assert_eq!(back.timesig.received, None);
}
