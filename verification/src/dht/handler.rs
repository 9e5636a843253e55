use vstd::prelude::*;

use crate::dht::bencode::Bencode;
use crate::dht::lookup::LookupStatus;
use crate::dht::message::MessageType;
use crate::dht::worker::{BootstrapStatus, DhtEvent, IpVersion, ShutdownCause};
use crate::sha::InfoHash;

pub use crate::dht::worker::DhtStatus;

verus! {

/// Bootstrap attempts before giving up.
pub const MAX_BOOTSTRAP_ATTEMPTS: usize = 3;

/// At or below this many good nodes the table is rebootstrapped.
pub const BOOTSTRAP_GOOD_NODE_THRESHOLD: usize = 10;

/// The table has too few good nodes and should be bootstrapped again.
pub fn nood_to_less(num_good_nodes: usize) -> (r: bool)
    ensures
        r == (num_good_nodes <= BOOTSTRAP_GOOD_NODE_THRESHOLD),
{
    num_good_nodes <= BOOTSTRAP_GOOD_NODE_THRESHOLD
}

/// The IP version as the handler names it.
pub fn ip_version_label(v: IpVersion) -> (r: &'static str)
    ensures
        r@ == (match v { IpVersion::V4 => "4"@, IpVersion::V6 => "6"@ }),
{
    match v {
        IpVersion::V4 => "4",
        IpVersion::V6 => "6",
    }
}

/// A read-only node answers no request: requests are dropped before they
/// are handled; everything else goes on.
pub fn handle_incoming_preprocess(read_only: bool, message: &Result<MessageType, crate::dht::message::DhtError>) -> (r: bool)
    ensures
        r == !(read_only && (message matches Ok(MessageType::Request { .. }))),
{
    if read_only {
        match message {
            Ok(MessageType::Request { .. }) => {
                return false;
            },
            _ => {},
        }
    }
    true
}

/// What to do after a bootstrap attempt ended.
#[derive(Debug, Clone, Copy, PartialEq, Eq, Structural)]
pub enum RebootstrapDecision {
    /// No node was found after the last attempt: shut down.
    GiveUp,
    /// Attempts are used up but some nodes were found: the bootstrap is
    /// done.
    Done,
    /// Bootstrap again; this is the number of attempts made so far.
    Retry(usize),
}

/// Counts the failed attempt; after `MAX_BOOTSTRAP_ATTEMPTS` the bootstrap
/// stops, done if any good node was found and failed otherwise.
pub fn rebootstrap_decision(attempts: usize, num_good_nodes: usize) -> (r: RebootstrapDecision)
    requires
        attempts < usize::MAX,
    ensures
        attempts + 1 >= MAX_BOOTSTRAP_ATTEMPTS && num_good_nodes == 0 ==> r == RebootstrapDecision::GiveUp,
        attempts + 1 >= MAX_BOOTSTRAP_ATTEMPTS && num_good_nodes > 0 ==> r == RebootstrapDecision::Done,
        attempts + 1 < MAX_BOOTSTRAP_ATTEMPTS ==> r == RebootstrapDecision::Retry((attempts + 1) as usize),
{
    let attempts = attempts + 1;
    if attempts >= MAX_BOOTSTRAP_ATTEMPTS {
        if num_good_nodes == 0 {
            RebootstrapDecision::GiveUp
        } else {
            RebootstrapDecision::Done
        }
    } else {
        RebootstrapDecision::Retry(attempts)
    }
}

/// What the handler does once a bootstrap step reported its status.
#[derive(Debug, Clone, Copy, PartialEq, Eq, Structural)]
pub enum BootstrapNext {
    Continue,
    Shutdown(ShutdownCause),
    /// The bootstrap found too few nodes: try again.
    Rebootstrap,
    /// The bootstrap completed: tell the clients.
    Complete,
}

/// A failed bootstrap shuts the DHT down; a completed one with too few good
/// nodes is tried again, else it is complete.
pub fn after_bootstrap_step(status: BootstrapStatus, num_good_nodes: usize) -> (r: BootstrapNext)
    ensures
        status == BootstrapStatus::Bootstrapping ==> r == BootstrapNext::Continue,
        status == BootstrapStatus::Failed ==> r == BootstrapNext::Shutdown(ShutdownCause::Unspecified),
        status == BootstrapStatus::Completed ==> r == (if num_good_nodes <= BOOTSTRAP_GOOD_NODE_THRESHOLD {
            BootstrapNext::Rebootstrap } else { BootstrapNext::Complete }),
{
    match status {
        BootstrapStatus::Bootstrapping => BootstrapNext::Continue,
        BootstrapStatus::Failed => BootstrapNext::Shutdown(ShutdownCause::Unspecified),
        BootstrapStatus::Completed => {
            if nood_to_less(num_good_nodes) {
                BootstrapNext::Rebootstrap
            } else {
                BootstrapNext::Complete
            }
        },
    }
}

/// What the handler does once a lookup step reported its status.
#[derive(Debug, Clone, Copy)]
pub enum LookupNext {
    Nothing,
    /// Tell the clients.
    Event(DhtEvent),
    Shutdown(ShutdownCause),
    /// Tell the clients, then shut down.
    EventThenShutdown(DhtEvent, ShutdownCause),
}

/// A completed lookup is announced, a failed one shuts the DHT down, a
/// failed announce is announced and shuts it down.
pub fn after_lookup_step(status: LookupStatus, info_hash: InfoHash) -> (r: LookupNext)
    ensures
        status == LookupStatus::Completed ==> (r matches LookupNext::Event(DhtEvent::LookupCompleted(h)) && h == info_hash),
        status == LookupStatus::Failed ==> r matches LookupNext::Shutdown(ShutdownCause::Unspecified),
        status == LookupStatus::AnnounceFailed ==>
            (r matches LookupNext::EventThenShutdown(DhtEvent::LookupAnFail(h), ShutdownCause::Unspecified) && h == info_hash),
        status == LookupStatus::Searching ==> r is Nothing,
{
    match status {
        LookupStatus::Completed => LookupNext::Event(DhtEvent::LookupCompleted(info_hash)),
        LookupStatus::Failed => LookupNext::Shutdown(ShutdownCause::Unspecified),
        LookupStatus::AnnounceFailed => LookupNext::EventThenShutdown(DhtEvent::LookupAnFail(info_hash), ShutdownCause::Unspecified),
        LookupStatus::Searching => LookupNext::Nothing,
    }
}

// ---------------------------------------------------------------------------
// Answering requests.

/// The six compact bytes of an IPv4 peer: address, then port, both in
/// network byte order.
pub open spec fn compact_peer(ip: u32, port: u16) -> Seq<u8> {
    seq![(ip / 0x1000000) as u8, ((ip / 0x10000) % 0x100) as u8, ((ip / 0x100) % 0x100) as u8, (ip % 0x100) as u8,
        (port / 0x100) as u8, (port % 0x100) as u8]
}

/// Writes an IPv4 peer as six compact bytes.
pub fn compact_peer_bytes(ip: u32, port: u16) -> (r: Vec<u8>)
    ensures
        r@ == compact_peer(ip, port),
{
    let r = vec![(ip / 0x1000000) as u8, ((ip / 0x10000) % 0x100) as u8, ((ip / 0x100) % 0x100) as u8, (ip % 0x100) as u8,
        (port / 0x100) as u8, (port % 0x100) as u8];
    assert(r@ =~= compact_peer(ip, port));
    r
}

/// The values of a `get_peers` answer: each stored IPv4 peer as a six byte
/// string.
pub fn contact_values(peers: &Vec<(u32, u16)>) -> (r: Vec<Bencode>)
    ensures
        r@.len() == peers@.len(),
        forall|i: int| 0 <= i < peers@.len() ==> ((#[trigger] r@[i]) matches Bencode::Bytes(b)
            && b@ == compact_peer(peers@[i].0, peers@[i].1)),
{
    let mut r: Vec<Bencode> = Vec::new();
    let mut i: usize = 0;
    while i < peers.len()
        invariant
            i <= peers@.len(),
            r@.len() == i,
            forall|j: int| 0 <= j < i ==> ((#[trigger] r@[j]) matches Bencode::Bytes(b)
                && b@ == compact_peer(peers@[j].0, peers@[j].1)),
        decreases peers@.len() - i,
    {
        let (ip, port) = peers[i];
        r.push(Bencode::Bytes(compact_peer_bytes(ip, port)));
        i = i + 1;
    }
    r
}

/// The port an announcing peer is reached at.
#[derive(Debug, Clone, Copy, PartialEq, Eq, Structural)]
pub enum ConnectPort {
    /// The port the announce came from.
    Implied,
    /// The port given in the announce.
    Explicit(u16),
}

/// The port to store for an announcing peer.
pub fn connect_port(source_port: u16, port: ConnectPort) -> (r: u16)
    ensures
        r == (match port { ConnectPort::Implied => source_port, ConnectPort::Explicit(p) => p }),
{
    match port {
        ConnectPort::Implied => source_port,
        ConnectPort::Explicit(p) => p,
    }
}

/// How an announce is answered.
#[derive(Debug, Clone, Copy, PartialEq, Eq, Structural)]
pub enum AnnounceReply {
    /// The token is not one we gave: a protocol error.
    InvalidToken,
    /// The peer was stored: an announce response.
    Stored,
    /// The store is full: a server error.
    StorageFull,
}

/// KRPC error code of a protocol error.
pub const PROTOCOL_ERROR_CODE: i64 = 203;

/// KRPC error code of a server error.
pub const SERVER_ERROR_CODE: i64 = 202;

/// An announce with an invalid token is refused; else the answer depends on
/// whether the store took the peer.
pub fn announce_reply(token_valid: bool, stored: bool) -> (r: AnnounceReply)
    ensures
        !token_valid ==> r == AnnounceReply::InvalidToken,
        token_valid && stored ==> r == AnnounceReply::Stored,
        token_valid && !stored ==> r == AnnounceReply::StorageFull,
{
    if !token_valid {
        AnnounceReply::InvalidToken
    } else if stored {
        AnnounceReply::Stored
    } else {
        AnnounceReply::StorageFull
    }
}

} // verus!
