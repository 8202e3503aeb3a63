//! Replication core of a peer-to-peer content distribution network.
//!
//! Content is bound to a Bitcoin funding transaction; peers reconcile
//! their content sets with sketch-sized invertible Bloom lookup tables
//! and admit content only with a valid funding script and SPV proof.

pub mod codec;
pub mod hashes;
pub mod key;
pub mod content;
pub mod script;
pub mod store;
pub mod tracker;
pub mod updater;
