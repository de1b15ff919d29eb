//! Data model shared by every subsystem of the router: identities, recipients,
//! transport peers, time signatures, frames and messages.

use vstd::prelude::*;

verus! {

/// A 256-bit opaque value, stored as four 64-bit words.  Node addresses,
/// message ids and sequence ids all share this type; values are compared
/// word for word, which is the same as comparing the raw bytes.
#[derive(Clone, Copy, PartialEq, Eq, Structural, Debug, Hash)]
pub struct Identity {
    pub w0: u64,
    pub w1: u64,
    pub w2: u64,
    pub w3: u64,
}

/// Relies on rand::random::<u64>: draws one uniformly random 64-bit value.
/// Nothing can be promised of a random draw.
#[verifier::external_body]
fn random_u64() -> u64 {
    rand::random::<u64>()
}

impl Identity {
    /// A fresh, uniformly random identity.
    pub fn random() -> Identity {
        Identity { w0: random_u64(), w1: random_u64(), w2: random_u64(), w3: random_u64() }
    }
}

/// Delivery target of a message or frame: one identity, or the whole network.
#[derive(Clone, Copy, PartialEq, Eq, Structural, Debug)]
pub enum Recipient {
    User(Identity),
    Flood,
}

/// A transport-level neighbour handle: an IPv4 address held as one 32-bit
/// word in network order, and a UDP port.
#[derive(Clone, Copy, PartialEq, Eq, Structural, Debug, Hash)]
pub struct Peer {
    pub ip: u32,
    pub port: u16,
}

/// Sequencing metadata of one frame.  Within one message all frames share
/// `seqid`, `num` runs densely from zero, and `next` is `Some(seqid)` on
/// every frame but the terminal one, where it is `None`.
#[derive(Clone, Copy, Debug)]
pub struct SeqData {
    pub seqid: Identity,
    pub num: u32,
    pub next: Option<Identity>,
}

/// The atomic wire unit: one slice of a message plus its sequencing data.
#[derive(Clone, Debug)]
pub struct Frame {
    pub sender: Identity,
    pub recipient: Recipient,
    pub seq: SeqData,
    pub payload: Vec<u8>,
}

/// Time signature of a message: when the sender sent it, and, once the
/// collector has reassembled it, when it was received.  Both are plain
/// millisecond timestamps.
#[derive(Clone, Copy, Debug)]
pub struct TimeSig {
    pub sent: u64,
    pub received: Option<u64>,
}

/// The application-level unit.  `id` equals the sequence id of the frames
/// the message travels in.
#[derive(Clone, Debug)]
pub struct Message {
    pub id: Identity,
    pub sender: Identity,
    pub recipient: Recipient,
    pub payload: Vec<u8>,
    pub timesig: TimeSig,
    pub sign: Vec<u8>,
}

/// What a frame chain carries once reassembled: the application payload,
/// the time signature and the end-to-end signature blob.
#[derive(Clone, Debug)]
pub struct Payload {
    pub payload: Vec<u8>,
    pub timesig: TimeSig,
    pub sign: Vec<u8>,
}

/// Errors surfaced by the router to local callers.
#[derive(Clone, Copy, PartialEq, Eq, Structural, Debug)]
pub enum RatmanError {
    /// The recipient identity has no route on any known transport.
    NoRoute,
    /// The identity is already hosted locally.
    DuplicateUser,
    /// The identity is not hosted locally.
    UnknownUser,
}

} // verus!
