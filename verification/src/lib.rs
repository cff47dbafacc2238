//! Neighbor-discovery and topology-synchronization engine for a decentralized
//! overlay network. Each node keeps a local, partial, cryptographically
//! authenticated view of the network graph (the topology store) and converges
//! it with peers through gossip: a producer decides what may be disclosed to a
//! given peer, and a merge engine folds incoming, signature-checked records
//! into the store monotonically and idempotently. Transport and scheduling are
//! external: every operation here is a pure, synchronous, in-memory
//! transformation.
pub mod accept;
pub mod codec;
pub mod constructor;
pub mod crypt;
pub mod handshake;
pub mod keys;
pub mod laws;
pub mod produce;
pub mod record;
pub mod store;
