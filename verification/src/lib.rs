//! A small proof-of-work blockchain: blocks are hashed with SHA3-512 over
//! their JSON encoding, mined until the hexadecimal hash starts with as
//! many zeros as the chain's difficulty asks for, and appended to a chain.
//! Peers agree on a new block by a plurality vote over the hashes they
//! received.

use vstd::prelude::*;

pub mod primitives;
pub mod text;
pub mod json;
pub mod block;
pub mod blockchain;
pub mod consensus;
pub mod utils;

verus! {

/// The role the program is started in.
#[derive(Debug, Clone, Copy, PartialEq, Eq, Structural)]
pub enum Runner {
    Server,
    Client,
}

} // verus!
