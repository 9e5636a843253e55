use vstd::prelude::*;
use crate::sha::{NodeId, InfoHash};
use crate::dht::lookup::{flip_bit, flip_id_bit_at_index, NodeHandle};
use crate::dht::bootstrap::{first_flagged, pick_flagged};

verus! {

/// Identifier of a transaction started by the DHT.
pub type TransactionId = u64;

/// Task that the DHT will execute some time later.
#[derive(Debug, Clone, Copy)]
pub enum ScheduledTask {
    /// Check the progress of the bucket refresh.
    CheckTableRefresh(TransactionId),
    /// Check the progress of the current bootstrap.
    CheckBootstrapTimeout(TransactionId),
    /// Check the progress of a current lookup.
    CheckLookupTimeout(TransactionId),
    /// Check the progress of the lookup endgame.
    CheckLookupEndGame(TransactionId),
}

/// Event within the DHT that clients may be interested in.
#[derive(Debug, Clone, Copy)]
pub enum DhtEvent {
    /// The DHT completed the bootstrap.
    BootstrapCompleted,
    /// The lookup for the given info hash completed.
    LookupCompleted(InfoHash),
    /// The announce at the end of a lookup failed.
    LookupAnFail(InfoHash),
    /// The DHT is shutting down.
    ShuttingDown(ShutdownCause),
}

/// Why the DHT shut down.
#[derive(Debug, Clone, Copy, PartialEq, Eq, Structural)]
pub enum ShutdownCause {
    /// The DHT failed to bootstrap more than once.
    BootstrapFailed,
    /// The client shut it down.
    ClientInitiated,
    /// No cause given.
    Unspecified,
}

/// Overall state of the DHT as reported to clients.
#[derive(Debug, Clone, Copy, PartialEq, Eq, Structural)]
pub enum DhtStatus {
    Init,
    BootStrapIng,
    Fail,
    Completed,
}

// ---------------------------------------------------------------------------
// Bootstrap.

/// State of a bootstrap.
#[derive(Debug, PartialEq, Eq, Structural)]
pub enum BootstrapStatus {
    /// Bootstrap is in progress.
    Bootstrapping,
    /// Bootstrap just finished.
    Completed,
    /// Bootstrap failed in a fatal way.
    Failed,
}

/// Number of buckets of the routing table.
pub const MAX_BUCKETS: usize = 160;

/// A bootstrap is completed once every bucket was visited and no message
/// is outstanding.
pub fn current_bootstrap_status(is_completed: bool, active_messages_empty: bool) -> (r: BootstrapStatus)
    ensures
        r == (if is_completed && active_messages_empty { BootstrapStatus::Completed } else { BootstrapStatus::Bootstrapping }),
{
    if is_completed && active_messages_empty {
        BootstrapStatus::Completed
    } else {
        BootstrapStatus::Bootstrapping
    }
}

// ---------------------------------------------------------------------------
// Table refresh.

/// State of a table refresh.
#[derive(Debug, PartialEq, Eq, Structural)]
pub enum RefreshStatus {
    /// Refresh is in progress.
    Refreshing,
    /// Refresh failed in a fatal way.
    Failed,
}

/// Milliseconds between two refresh rounds that sent requests.
pub const REFRESH_INTERVAL_TIMEOUT_MILLIS: u64 = 6000;

/// Milliseconds before the next round after a round that sent nothing.
pub const REFRESH_0_TIMEOUT_MILLIS: u64 = 3000;

/// Number of nodes asked per refresh round.
pub const REFRESH_CONCURRENCY: usize = 4;

/// The nodes a refresh round asks: the first `REFRESH_CONCURRENCY` of the
/// candidates (the table's nodes closest to the round's target) that are
/// flagged questionable and not recently requested from.
pub fn refresh_picks(candidates: &Vec<(NodeHandle, bool)>) -> (r: Vec<NodeHandle>)
    ensures
        r@ == first_flagged(candidates@, REFRESH_CONCURRENCY as nat),
{
    pick_flagged(candidates, REFRESH_CONCURRENCY)
}

/// Walks the buckets of the routing table one by one, refreshing each.
pub struct TableRefresh {
    curr_refresh_bucket: usize,
    send_message_num: u8,
}

impl TableRefresh {
    /// The bucket that the next round refreshes.
    pub closed spec fn bucket(&self) -> nat {
        self.curr_refresh_bucket as nat
    }

    /// Requests sent in the last round.
    pub closed spec fn sent(&self) -> nat {
        self.send_message_num as nat
    }

    pub closed spec fn wf(&self) -> bool {
        self.curr_refresh_bucket <= MAX_BUCKETS
    }

    pub fn new() -> (r: TableRefresh)
        ensures
            r.wf(),
            r.bucket() == 0,
            r.sent() == 0,
    {
        TableRefresh { curr_refresh_bucket: 0, send_message_num: 0 }
    }

    /// Starts a round: wraps the bucket index after the last bucket and
    /// returns the bucket and the target id whose lookup refreshes it.
    pub fn begin_round(&mut self, table_id: &NodeId) -> (r: (usize, NodeId))
        requires
            old(self).wf(),
        ensures
            final(self).wf(),
            r.0 < MAX_BUCKETS,
            r.0 == (if old(self).bucket() == MAX_BUCKETS { 0 } else { old(self).bucket() }),
            final(self).bucket() == r.0,
            final(self).sent() == 0,
            r.1@ == flip_bit(table_id@, r.0 as int),
    {
        self.send_message_num = 0;
        if self.curr_refresh_bucket == MAX_BUCKETS {
            self.curr_refresh_bucket = 0;
        }
        let target = flip_id_bit_at_index(*table_id, self.curr_refresh_bucket);
        (self.curr_refresh_bucket, target)
    }

    /// Counts one request sent in this round.
    pub fn record_sent(&mut self)
        requires
            old(self).sent() < REFRESH_CONCURRENCY,
        ensures
            final(self).sent() == old(self).sent() + 1,
            final(self).bucket() == old(self).bucket(),
            final(self).wf() == old(self).wf(),
    {
        self.send_message_num = self.send_message_num + 1;
    }

    /// Ends a round: moves to the next bucket and gives the delay before
    /// the next round, shorter when nothing was sent.
    pub fn end_round(&mut self) -> (r: u64)
        requires
            old(self).wf(),
            old(self).bucket() < MAX_BUCKETS,
        ensures
            final(self).wf(),
            final(self).bucket() == old(self).bucket() + 1,
            final(self).sent() == old(self).sent(),
            r == (if old(self).sent() != 0 { REFRESH_INTERVAL_TIMEOUT_MILLIS } else { REFRESH_0_TIMEOUT_MILLIS }),
    {
        self.curr_refresh_bucket = self.curr_refresh_bucket + 1;
        if self.send_message_num != 0 {
            REFRESH_INTERVAL_TIMEOUT_MILLIS
        } else {
            REFRESH_0_TIMEOUT_MILLIS
        }
    }
}

// ---------------------------------------------------------------------------
// Sockets.

/// Version of the IP protocol of a socket.
#[derive(Debug, Clone, Copy, PartialEq, Eq, Structural)]
pub enum IpVersion {
    V4,
    V6,
}

impl IpVersion {
    /// Name of the version as it is shown to users.
    pub fn name(&self) -> (r: &'static str)
        ensures
            r@ == (match self { IpVersion::V4 => "IPv4"@, IpVersion::V6 => "IPv6"@ }),
    {
        match self {
            IpVersion::V4 => "IPv4",
            IpVersion::V6 => "IPv6",
        }
    }
}

} // verus!
