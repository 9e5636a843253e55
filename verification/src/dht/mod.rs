//! Mainline DHT: KRPC messages and routing table helpers.

pub mod bencode;
pub mod message;
pub mod lookup;
pub mod worker;
pub mod decode;
pub mod handler;
pub mod bootstrap;
