//! The journal's dedup guarantees and the address table's bijection.

use ratman::journal::Journal;
use ratman::model::{Frame, Identity, Peer, Recipient, SeqData};
use ratman::table::AddrTable;

fn id(n: u64) -> Identity {
    Identity { w0: n, w1: 0, w2: 0, w3: n }
}

#[test]
fn unknown_until_saved() {
    let mut journal = Journal::new();
    let s = (id(7), 0u32);
    assert!(journal.unknown(&s));
    journal.save(&s);
    assert!(!journal.unknown(&s));
    // Other frames stay unknown, even in the same sequence.
    assert!(journal.unknown(&(id(7), 1)));
    assert!(journal.unknown(&(id(8), 0)));
}

#[test]
fn saving_twice_changes_nothing() {
    let mut journal = Journal::new();
    let s = (id(3), 2u32);
    journal.save(&s);
    journal.save(&s);
    assert!(!journal.unknown(&s));
    assert!(journal.unknown(&(id(4), 2)));
}

#[test]
fn queue_admits_the_frame_key() {
    let mut journal = Journal::new();
    let frame = Frame {
        sender: id(1),
        recipient: Recipient::Flood,
        seq: SeqData { seqid: id(2), num: 3, next: None },
        payload: Vec::new(),
    };
    assert!(journal.unknown(&(id(2), 3)));
    journal.queue(&frame);
    assert!(!journal.unknown(&(id(2), 3)));
    assert!(journal.unknown(&(id(2), 0)));
}

#[test]
fn set_assigns_and_set_again_keeps_the_id() {
    let mut table = AddrTable::new();
    let p = Peer { ip: 0x7F000001, port: 10000 };
    let q = Peer { ip: 0x7F000001, port: 10001 };
    table.set(p);
    let first = table.id(&p);
    assert!(first.is_some());
    table.set(q);
    table.set(p);
    assert_eq!(table.id(&p), first);
    assert_eq!(table.id(&q), Some(1));
}

#[test]
fn ids_are_sequential_and_reversible() {
    let mut table = AddrTable::new();
    let peers: Vec<Peer> = (0..4u16).map(|k| Peer { ip: 0x0A000001, port: 9000 + k }).collect();
    for p in &peers {
        table.set(*p);
    }
    for (k, p) in peers.iter().enumerate() {
        assert_eq!(table.id(p), Some(k));
        assert_eq!(table.peer(k), Some(*p));
    }
    assert_eq!(table.peer(peers.len()), None);
    assert_eq!(table.all(), peers);
    assert_eq!(table.id(&Peer { ip: 1, port: 1 }), None);
}
