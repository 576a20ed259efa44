//! Verified core of a host/client state-sketch protocol for read-only
//! contract calls: a host records exactly the state facts a call sequence
//! reads and packs them, with inclusion proofs, into a self-contained
//! sketch; a client checks the sketch and replays the calls offline,
//! committing the results to a canonical, injective byte encoding.

pub mod types;
pub mod hash;
pub mod encode;
pub mod accumulator;
pub mod state;
pub mod calls;
pub mod sketch;
pub mod commit;
pub mod host;
pub mod memory;
pub mod wire;
pub mod client;
