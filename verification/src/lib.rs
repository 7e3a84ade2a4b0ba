//! A peer-to-peer gossip overlay core: the wire-protocol codec, the
//! per-session state machine, and the duplicate-suppression table, all
//! verified. TCP transport, clocks and command-line handling live outside
//! the library and talk to it through plain values.

pub mod codec;
pub mod node;
pub mod types;
