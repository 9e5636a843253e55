//! Verified core of a BitTorrent protocol library: peer wire messages,
//! piece bookkeeping, DHT routing helpers and tracker packet handling.

pub mod sha;
pub mod disk;
pub mod wire;
pub mod bitfield;
pub mod download;
pub mod meta_info;
pub mod dht;
pub mod rng;
pub mod peer_connection;
pub mod tracker;
pub mod client;
pub mod utracker;
pub mod peer_wire;
pub mod handshake;
pub mod trans;
pub mod select;
pub mod decoder;
