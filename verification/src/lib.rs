//! Matching of server addresses against Mojang's published blocked-server
//! list: a set of SHA-1 hashes of exact addresses and wildcard patterns.

pub mod hashing;
pub mod server_block;
pub mod text;

pub use server_block::BlockedServers;
