//! Core routing and message-assembly engine for an address-based overlay
//! network.  Application messages addressed to 256-bit identities are sliced
//! into frames, dispatched to peers, and on the receive side collected back
//! into messages and delivered through a local IPC surface.

pub mod bytes;
pub mod codec;
pub mod collector;
pub mod daemon;
pub mod journal;
pub mod model;
pub mod netmod;
pub mod router;
pub mod slicer;
pub mod table;

pub use model::Identity;
