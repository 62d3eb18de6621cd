//! UDP rendezvous and relay server core: wire codec, rendezvous registry,
//! punch coordinator and relay engine, with machine-checked contracts.
//!
//! The event loop that owns the sockets feeds datagrams into this library and
//! flushes the outbound queue it produces; everything in between is verified.

pub mod addr;
pub mod client;
pub mod data;
pub mod deser_utils;
pub mod digits;
pub mod laws;
pub mod parse;
pub mod serialize;
pub mod tokens;
pub mod tracker;

use vstd::prelude::*;

verus! {

/// The number of UDP sockets the server multiplexes.
pub const UDP_SOCKET_N: usize = 4;

} // verus!
