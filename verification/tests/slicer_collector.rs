//! Slicing, restoring and reassembly: the payload round trip, reordered
//! and duplicated frames, and undecodable chains.

use ratman::codec::encode_payload;
use ratman::collector::{CollectOutcome, Collector, Worker};
use ratman::model::{Frame, Identity, Payload, Recipient, SeqData, TimeSig};
use ratman::slicer::{restore_frames, slice_frames};

fn id(n: u64) -> Identity {
    Identity { w0: n, w1: n + 1, w2: n + 2, w3: n + 3 }
}

#[test]
fn slice_then_restore_returns_payload() {
    let payload: Vec<u8> = (0u8..30).collect();
    let frames = slice_frames(&id(1), &Recipient::Flood, &id(2), &payload, 10);
    assert_eq!(frames.len(), 3);
    for (k, f) in frames.iter().enumerate() {
        assert_eq!(f.seq.num as usize, k);
        assert_eq!(f.seq.seqid, id(2));
        if k == 2 {
            assert_eq!(f.seq.next, None);
        } else {
            assert_eq!(f.seq.next, Some(id(2)));
        }
    }
    assert_eq!(frames[0].payload, (0u8..10).collect::<Vec<u8>>());
    assert_eq!(frames[1].payload, (10u8..20).collect::<Vec<u8>>());
    assert_eq!(frames[2].payload, (20u8..30).collect::<Vec<u8>>());
    let restored = restore_frames(&frames);
    assert_eq!(restored, payload);
}

#[test]
fn empty_payload_gives_one_empty_frame() {
    let frames = slice_frames(&id(1), &Recipient::Flood, &id(2), &Vec::new(), 16);
    assert_eq!(frames.len(), 1);
    assert!(frames[0].payload.is_empty());
    assert_eq!(frames[0].seq.num, 0);
    assert_eq!(frames[0].seq.next, None);
    assert!(restore_frames(&frames).is_empty());
}

#[test]
fn payload_smaller_than_capacity_gives_one_frame() {
    let frames = slice_frames(&id(1), &Recipient::User(id(9)), &id(2), &vec![1, 2, 3], 100);
    assert_eq!(frames.len(), 1);
    assert_eq!(frames[0].payload, vec![1, 2, 3]);
    assert_eq!(restore_frames(&frames), vec![1, 2, 3]);
}

/// Build the frame chain of a message whose application payload is the
/// given bytes, sliced at the given capacity.
fn chain_of(payload: Vec<u8>, cap: usize, sender: Identity, seqid: Identity) -> Vec<Frame> {
    let inner = Payload {
        payload,
        timesig: TimeSig { sent: 5, received: None },
        sign: vec![0xEE],
    };
    let enc = encode_payload(&inner);
    slice_frames(&sender, &Recipient::User(sender), &seqid, &enc, cap)
}

#[test]
fn reordered_frames_reassemble_once() {
    let payload: Vec<u8> = (0u8..30).collect();
    let frames = chain_of(payload.clone(), 10, id(3), id(4));
    assert!(frames.len() >= 3);
    // Feed the first frame, then the rest in reverse order.
    let mut collector = Collector::new();
    let order: Vec<usize> = {
        let mut o = vec![0];
        for k in (1..frames.len()).rev() {
            o.push(k);
        }
        o
    };
    let mut completions = 0;
    let mut delivered = None;
    for (step, k) in order.iter().enumerate() {
        match collector.ingest(frames[*k].clone(), 42) {
            CollectOutcome::Complete(m) => {
                completions += 1;
                assert_eq!(step, frames.len() - 1, "completes only on the last frame");
                delivered = Some(m);
            }
            CollectOutcome::Incomplete => {
                assert!(step < frames.len() - 1);
            }
            CollectOutcome::Failed => panic!("chain must decode"),
        }
    }
    assert_eq!(completions, 1);
    let m = delivered.expect("one message");
    assert_eq!(m.payload, payload);
    assert_eq!(m.id, id(4));
    assert_eq!(m.sender, id(3));
    assert_eq!(m.timesig.sent, 5);
    assert_eq!(m.timesig.received, Some(42));
    assert_eq!(m.sign, vec![0xEE]);
}

#[test]
fn duplicate_frame_is_discarded() {
    let payload: Vec<u8> = (0u8..30).collect();
    let frames = chain_of(payload.clone(), 10, id(3), id(4));
    assert!(frames.len() >= 3);
    let mut collector = Collector::new();
    // Frame 1 twice, then 0, then the rest.
    match collector.ingest(frames[1].clone(), 9) {
        CollectOutcome::Incomplete => {}
        _ => panic!("not complete yet"),
    }
    match collector.ingest(frames[1].clone(), 9) {
        CollectOutcome::Incomplete => {}
        _ => panic!("duplicate must be discarded"),
    }
    let mut completions = 0;
    let mut msg = None;
    for k in (0..frames.len()).filter(|k| *k != 1) {
        match collector.ingest(frames[k].clone(), 9) {
            CollectOutcome::Complete(m) => {
                completions += 1;
                msg = Some(m);
            }
            CollectOutcome::Incomplete => {}
            CollectOutcome::Failed => panic!("chain must decode"),
        }
    }
    assert_eq!(completions, 1);
    assert_eq!(msg.expect("delivered").payload, payload);
}

#[test]
fn undecodable_chain_fails_without_delivery() {
    // A terminal frame whose bytes are not a payload encoding.
    let frame = Frame {
        sender: id(1),
        recipient: Recipient::Flood,
        seq: SeqData { seqid: id(2), num: 0, next: None },
        payload: vec![0xFF, 0xFF],
    };
    let mut worker = Worker::new(id(2));
    match worker.ingest(frame, 1) {
        CollectOutcome::Failed => {}
        _ => panic!("protocol error must not deliver"),
    }
}

#[test]
fn worker_parks_on_missing_terminal() {
    let payload: Vec<u8> = (0u8..30).collect();
    let frames = chain_of(payload, 10, id(3), id(4));
    let mut worker = Worker::new(id(4));
    // Everything but the terminal frame.
    for k in 0..frames.len() - 1 {
        match worker.ingest(frames[k].clone(), 1) {
            CollectOutcome::Incomplete => {}
            _ => panic!("sequence is not terminal yet"),
        }
    }
}

#[test]
fn long_sequence_reassembles_in_reverse() {
    // A payload long enough to span many frames at a small capacity.
    let payload: Vec<u8> = (0..1000u32).map(|k| (k % 251) as u8).collect();
    let frames = chain_of(payload.clone(), 16, id(8), id(9));
    assert!(frames.len() > 50);
    let mut collector = Collector::new();
    let mut completions = 0;
    let mut delivered = None;
    for k in (0..frames.len()).rev() {
        match collector.ingest(frames[k].clone(), 3) {
            CollectOutcome::Complete(m) => {
                completions += 1;
                delivered = Some(m);
            }
            CollectOutcome::Incomplete => {}
            CollectOutcome::Failed => panic!("chain must decode"),
        }
    }
    assert_eq!(completions, 1);
    assert_eq!(delivered.expect("one message").payload, payload);
}
