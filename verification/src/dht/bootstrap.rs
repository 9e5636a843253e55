use vstd::prelude::*;
use crate::sha::NodeId;
use crate::trans::SequentialIds;
use crate::dht::lookup::{NodeHandle, flip_bit, flip_id_bit_at_index, used_nodes, id_after, round_requests};
use crate::dht::worker::{BootstrapStatus, MAX_BUCKETS};

verus! {

/// An IPv4 socket address: the address and the port.
pub type SocketAddr = (u32, u16);

/// Milliseconds to wait for the routers before the buckets are bootstrapped.
pub const BOOTSTRAP_INITIAL_TIMEOUT_MILLIS: u64 = 2500;

/// Milliseconds to wait for a node asked during a bucket bootstrap.
pub const BOOTSTRAP_NODE_TIMEOUT_MILLIS: u64 = 500;

/// Most nodes asked per bucket.
pub const PINGS_PER_BUCKET: usize = 8;

// ---------------------------------------------------------------------------
// Outstanding transactions, kept as a set.

/// Records a transaction: the set gains the id.
fn track(active: &mut Vec<u64>, id: u64)
    requires
        old(active)@.no_duplicates(),
    ensures
        final(active)@.no_duplicates(),
        final(active)@ == (if old(active)@.contains(id) { old(active)@ } else { old(active)@.push(id) }),
{
    let mut i: usize = 0;
    while i < active.len()
        invariant
            i <= active@.len(),
            active@ == old(active)@,
            old(active)@.no_duplicates(),
            forall|j: int| 0 <= j < i ==> active@[j] != id,
        decreases active@.len() - i,
    {
        if active[i] == id {
            return;
        }
        i = i + 1;
    }
    proof {
        assert(!active@.contains(id));
    }
    active.push(id);
}

/// Whether the transaction is awaited.
fn contains_id(active: &Vec<u64>, id: u64) -> (r: bool)
    ensures
        r == active@.contains(id),
{
    let mut i: usize = 0;
    while i < active.len()
        invariant
            i <= active@.len(),
            forall|j: int| 0 <= j < i ==> active@[j] != id,
        decreases active@.len() - i,
    {
        if active[i] == id {
            return true;
        }
        i = i + 1;
    }
    false
}

/// Forgets a transaction; tells whether it was outstanding.
fn untrack(active: &mut Vec<u64>, id: u64) -> (r: bool)
    requires
        old(active)@.no_duplicates(),
    ensures
        r == old(active)@.contains(id),
        !r ==> final(active)@ == old(active)@,
        final(active)@.no_duplicates(),
        forall|x: u64| final(active)@.contains(x) <==> (old(active)@.contains(x) && x != id),
        final(active)@.len() == (if r { old(active)@.len() - 1 } else { old(active)@.len() as int }),
{
    let ghost before = active@;
    let mut i: usize = 0;
    while i < active.len()
        invariant
            i <= active@.len(),
            active@ == before,
            before == old(active)@,
            before.no_duplicates(),
            forall|j: int| 0 <= j < i ==> active@[j] != id,
        decreases active@.len() - i,
    {
        if active[i] == id {
            active.remove(i);
            proof {
                assert forall|x: u64| active@.contains(x) <==> (before.contains(x) && x != id) by {
                    if active@.contains(x) {
                        let k = choose|k: int| 0 <= k < active@.len() && active@[k] == x;
                        if k < i {
                            assert(before[k] == x);
                        } else {
                            assert(before[k + 1] == x);
                            assert(before[k + 1] != before[i as int]);
                        }
                    }
                    if before.contains(x) && x != id {
                        let k = choose|k: int| 0 <= k < before.len() && before[k] == x;
                        if k < i {
                            assert(active@[k] == x);
                        } else {
                            assert(k != i);
                            assert(active@[k - 1] == x);
                        }
                    }
                }
                assert forall|a: int, b: int| 0 <= a < b < active@.len() implies active@[a] != active@[b] by {
                    let a2 = if a < i { a } else { a + 1 };
                    let b2 = if b < i { b } else { b + 1 };
                    assert(active@[a] == before[a2]);
                    assert(active@[b] == before[b2]);
                }
            }
            return true;
        }
        i = i + 1;
    }
    proof {
        assert(!before.contains(id));
        assert forall|x: u64| active@.contains(x) <==> (before.contains(x) && x != id) by {}
    }
    false
}

// ---------------------------------------------------------------------------
// Choosing the nodes of a bucket round.

/// The first `limit` flagged candidates, in order.
pub open spec fn first_flagged(candidates: Seq<(NodeHandle, bool)>, limit: nat) -> Seq<NodeHandle> {
    let q = used_nodes(candidates);
    if q.len() <= limit { q } else { q.take(limit as int) }
}

/// The first nodes that a bucket round asks: the questionable candidates,
/// in order, at most `PINGS_PER_BUCKET` of them.
pub open spec fn bootstrap_picks(candidates: Seq<(NodeHandle, bool)>) -> Seq<NodeHandle> {
    first_flagged(candidates, PINGS_PER_BUCKET as nat)
}

/// Picks, in order, the first `limit` candidates whose flag is set.
pub fn pick_flagged(candidates: &Vec<(NodeHandle, bool)>, limit: usize) -> (r: Vec<NodeHandle>)
    ensures
        r@ == first_flagged(candidates@, limit as nat),
{
    let mut out: Vec<NodeHandle> = Vec::new();
    let mut i: usize = 0;
    assert(candidates@.take(0) =~= Seq::<(NodeHandle, bool)>::empty());
    while i < candidates.len()
        invariant
            i <= candidates@.len(),
            out@ == first_flagged(candidates@.take(i as int), limit as nat),
        decreases candidates@.len() - i,
    {
        let ghost q = used_nodes(candidates@.take(i as int));
        proof {
            assert(candidates@.take(i + 1).drop_last() =~= candidates@.take(i as int));
            assert(candidates@.take(i + 1).last() == candidates@[i as int]);
        }
        if candidates[i].1 && out.len() < limit {
            out.push(candidates[i].0);
            proof {
                assert(used_nodes(candidates@.take(i + 1)) == q.push(candidates@[i as int].0));
                assert(out@ =~= first_flagged(candidates@.take(i + 1), limit as nat));
            }
        } else {
            proof {
                if candidates@[i as int].1 {
                    let q2 = q.push(candidates@[i as int].0);
                    assert(used_nodes(candidates@.take(i + 1)) == q2);
                    assert(q2.take(limit as int) =~= q.take(limit as int));
                    if q.len() == limit {
                        assert(q.take(limit as int) =~= q);
                    }
                } else {
                    assert(used_nodes(candidates@.take(i + 1)) == q);
                }
            }
        }
        i = i + 1;
    }
    assert(candidates@.take(candidates@.len() as int) =~= candidates@);
    out
}

/// Picks the nodes of a bucket round from candidates flagged questionable
/// or not.
pub fn pick_questionable(candidates: &Vec<(NodeHandle, bool)>) -> (r: Vec<NodeHandle>)
    ensures
        r@ == bootstrap_picks(candidates@),
{
    pick_flagged(candidates, PINGS_PER_BUCKET)
}

// ---------------------------------------------------------------------------
// What the bootstrap asks of its caller.

/// Start of a bootstrap: a find-node request for the table's own id goes to
/// every router and then every starting node, under one transaction whose
/// timeout begins the bucket rounds.
pub struct BootstrapStart {
    /// Transaction of the requests.
    pub trans_id: u64,
    /// The id whose closest nodes are asked for.
    pub target: NodeId,
    /// Where the requests go, routers first.
    pub addrs: Vec<SocketAddr>,
    /// Milliseconds before the transaction times out.
    pub timeout_millis: u64,
    /// Status after the start.
    pub status: BootstrapStatus,
}

/// What follows an event of the bootstrap.
#[derive(Debug, PartialEq, Eq, Structural)]
pub enum BootstrapProgress {
    /// Report this status.
    Status(BootstrapStatus),
    /// Nothing is awaited: run the round of the next bucket.
    NextBucket,
}

/// Where the caller finds the candidates of the next bucket round.
pub enum BootstrapSource {
    /// The nodes of the table closest to the target.
    ClosestNodes { target: NodeId },
    /// The nodes of three buckets of the table, starting at `first`.
    Buckets { first: usize, target: NodeId },
}

/// Some request of the round went out under the transaction.
pub open spec fn requested_under(r: Seq<(u64, NodeHandle)>, x: u64) -> bool {
    exists|k: int| 0 <= k < r.len() && (#[trigger] r[k]).0 == x
}

/// A bucket round: find-node requests for the target, one transaction per
/// node, each timing out after `BOOTSTRAP_NODE_TIMEOUT_MILLIS`.
pub struct BootstrapRound {
    /// The id whose closest nodes are asked for.
    pub target: NodeId,
    /// The transactions and the nodes they ask.
    pub requests: Vec<(u64, NodeHandle)>,
    /// What follows the round.
    pub progress: BootstrapProgress,
}

// ---------------------------------------------------------------------------
// The bootstrap of a routing table.

/// Fills an empty routing table: asks the routers and the known nodes for
/// the nodes closest to the table's own id, then walks the buckets from the
/// first to the last, asking questionable nodes for the nodes closest to an
/// id that falls into each bucket.
pub struct TableBootstrap {
    table_id: NodeId,
    id_generator: SequentialIds,
    starting_nodes: Vec<SocketAddr>,
    starting_routers: Vec<SocketAddr>,
    active_messages: Vec<u64>,
    curr_bootstrap_bucket: usize,
    is_completed: bool,
}

impl TableBootstrap {
    /// The id of the table being filled.
    pub closed spec fn spec_table_id(&self) -> Seq<u8> {
        self.table_id@
    }

    /// The next transaction id that the bootstrap hands out.
    pub closed spec fn next_id(&self) -> u64 {
        self.id_generator.next()
    }

    /// The nodes asked at the start.
    pub closed spec fn nodes(&self) -> Seq<SocketAddr> {
        self.starting_nodes@
    }

    /// The routers asked at the start, each once.
    pub closed spec fn routers(&self) -> Seq<SocketAddr> {
        self.starting_routers@
    }

    /// The transactions still awaited.
    pub closed spec fn active(&self) -> Seq<u64> {
        self.active_messages@
    }

    /// The bucket that the next round bootstraps.
    pub closed spec fn bucket(&self) -> nat {
        self.curr_bootstrap_bucket as nat
    }

    /// Every bucket had its round.
    pub closed spec fn completed(&self) -> bool {
        self.is_completed
    }

    /// The state that every operation keeps: the bucket index stays within
    /// the table, the walk is complete exactly when it passed the last
    /// bucket, and no router or transaction is kept twice.
    pub closed spec fn wf(&self) -> bool {
        &&& self.table_id@.len() == 20
        &&& self.curr_bootstrap_bucket <= MAX_BUCKETS
        &&& self.is_completed == (self.curr_bootstrap_bucket == MAX_BUCKETS)
        &&& self.starting_routers@.no_duplicates()
        &&& self.active_messages@.no_duplicates()
    }

    /// The status that the bootstrap reports between events.
    pub open spec fn spec_status(&self) -> BootstrapStatus {
        if self.completed() && self.active().len() == 0 {
            BootstrapStatus::Completed
        } else {
            BootstrapStatus::Bootstrapping
        }
    }

    /// A bootstrap that has not started: the routers are kept once each.
    pub fn new(table_id: NodeId, id_generator: SequentialIds, nodes: Vec<SocketAddr>, routers: Vec<SocketAddr>) -> (r: TableBootstrap)
        requires
            table_id@.len() == 20,
        ensures
            r.wf(),
            r.spec_table_id() == table_id@,
            r.next_id() == id_generator.next(),
            r.nodes() == nodes@,
            forall|a: SocketAddr| r.routers().contains(a) <==> routers@.contains(a),
            r.active().len() == 0,
            r.bucket() == 0,
            !r.completed(),
    {
        let mut filter: Vec<SocketAddr> = Vec::new();
        let mut i: usize = 0;
        while i < routers.len()
            invariant
                i <= routers@.len(),
                filter@.no_duplicates(),
                forall|a: SocketAddr| filter@.contains(a) <==> routers@.take(i as int).contains(a),
            decreases routers@.len() - i,
        {
            let a = routers[i];
            let mut seen = false;
            let mut j: usize = 0;
            while j < filter.len()
                invariant
                    j <= filter@.len(),
                    i < routers@.len(),
                    a == routers@[i as int],
                    filter@.no_duplicates(),
                    forall|b: SocketAddr| filter@.contains(b) <==> routers@.take(i as int).contains(b),
                    seen <==> filter@.take(j as int).contains(a),
                decreases filter@.len() - j,
            {
                if filter[j].0 == a.0 && filter[j].1 == a.1 {
                    seen = true;
                }
                proof {
                    assert(filter@.take(j + 1) == filter@.take(j as int).push(filter@[j as int]));
                    vstd::seq_lib::lemma_seq_contains_after_push(filter@.take(j as int), filter@[j as int], a);
                }
                j = j + 1;
            }
            proof {
                assert(filter@.take(filter@.len() as int) == filter@);
                assert(routers@.take(i + 1) == routers@.take(i as int).push(a));
                assert forall|b: SocketAddr| routers@.take(i + 1).contains(b) <==> (routers@.take(i as int).contains(b) || a == b) by {
                    vstd::seq_lib::lemma_seq_contains_after_push(routers@.take(i as int), a, b);
                }
            }
            let ghost prev = filter@;
            if !seen {
                filter.push(a);
                proof {
                    assert forall|b: SocketAddr| filter@.contains(b) <==> (prev.contains(b) || a == b) by {
                        vstd::seq_lib::lemma_seq_contains_after_push(prev, a, b);
                    }
                }
            }
            proof {
                assert forall|b: SocketAddr| filter@.contains(b) <==> routers@.take(i + 1).contains(b) by {
                    if !seen {
                        assert(filter@.contains(b) <==> (prev.contains(b) || a == b));
                    } else {
                        assert(prev.contains(a));
                    }
                    assert(routers@.take(i + 1).contains(b) <==> (routers@.take(i as int).contains(b) || a == b));
                }
            }
            i = i + 1;
        }
        proof {
            assert(routers@.take(routers@.len() as int) == routers@);
        }
        TableBootstrap {
            table_id,
            id_generator,
            starting_nodes: nodes,
            starting_routers: filter,
            active_messages: Vec::new(),
            curr_bootstrap_bucket: 0,
            is_completed: false,
        }
    }

    /// Whether every bucket had its round.
    pub fn is_completed(&self) -> (r: bool)
        ensures
            r == self.completed(),
    {
        self.is_completed
    }

    /// Whether no transaction is awaited.
    pub fn active_messages_is_empty(&self) -> (r: bool)
        ensures
            r == (self.active().len() == 0),
    {
        self.active_messages.len() == 0
    }

    /// Whether the address is one of the routers.
    pub fn is_router(&self, addr: &SocketAddr) -> (r: bool)
        ensures
            r == self.routers().contains(*addr),
    {
        let mut i: usize = 0;
        while i < self.starting_routers.len()
            invariant
                i <= self.starting_routers@.len(),
                forall|j: int| 0 <= j < i ==> self.starting_routers@[j] != *addr,
            decreases self.starting_routers@.len() - i,
        {
            if self.starting_routers[i].0 == addr.0 && self.starting_routers[i].1 == addr.1 {
                return true;
            }
            i = i + 1;
        }
        false
    }

    /// Everything but the awaited transactions is the same.
    pub closed spec fn same_walk(&self, other: &TableBootstrap) -> bool {
        &&& self.table_id@ == other.table_id@
        &&& self.id_generator.next() == other.id_generator.next()
        &&& self.starting_nodes@ == other.starting_nodes@
        &&& self.starting_routers@ == other.starting_routers@
        &&& self.curr_bootstrap_bucket == other.curr_bootstrap_bucket
        &&& self.is_completed == other.is_completed
    }

    /// Starts or restarts the bootstrap: forgets every transaction, goes
    /// back to the first bucket and asks the routers and the starting nodes
    /// for the nodes closest to the table's own id.
    pub fn start_bootstrap(&mut self) -> (r: BootstrapStart)
        requires
            old(self).wf(),
        ensures
            final(self).wf(),
            r.trans_id == old(self).next_id(),
            final(self).next_id() == id_after(old(self).next_id(), 1),
            final(self).active() == seq![r.trans_id],
            final(self).bucket() == 0,
            !final(self).completed(),
            final(self).spec_table_id() == old(self).spec_table_id(),
            final(self).nodes() == old(self).nodes(),
            final(self).routers() == old(self).routers(),
            r.target@ == old(self).spec_table_id(),
            r.addrs@ == old(self).routers() + old(self).nodes(),
            r.timeout_millis == BOOTSTRAP_INITIAL_TIMEOUT_MILLIS,
            r.status == BootstrapStatus::Bootstrapping,
    {
        self.active_messages.clear();
        self.curr_bootstrap_bucket = 0;
        self.is_completed = false;
        let trans_id = self.id_generator.next_id();
        self.active_messages.push(trans_id);
        let mut addrs: Vec<SocketAddr> = Vec::new();
        let mut i: usize = 0;
        while i < self.starting_routers.len()
            invariant
                i <= self.starting_routers@.len(),
                addrs@ == self.starting_routers@.take(i as int),
            decreases self.starting_routers@.len() - i,
        {
            addrs.push(self.starting_routers[i]);
            proof {
                assert(self.starting_routers@.take(i + 1) =~= self.starting_routers@.take(i as int).push(self.starting_routers@[i as int]));
            }
            i = i + 1;
        }
        let mut j: usize = 0;
        while j < self.starting_nodes.len()
            invariant
                j <= self.starting_nodes@.len(),
                addrs@ == self.starting_routers@ + self.starting_nodes@.take(j as int),
            decreases self.starting_nodes@.len() - j,
        {
            proof {
                assert(self.starting_routers@.take(self.starting_routers@.len() as int) =~= self.starting_routers@);
            }
            addrs.push(self.starting_nodes[j]);
            proof {
                assert(self.starting_nodes@.take(j + 1) =~= self.starting_nodes@.take(j as int).push(self.starting_nodes@[j as int]));
            }
            j = j + 1;
        }
        proof {
            assert(self.starting_routers@.take(self.starting_routers@.len() as int) =~= self.starting_routers@);
            assert(self.starting_nodes@.take(self.starting_nodes@.len() as int) =~= self.starting_nodes@);
            assert(self.active_messages@ =~= seq![trans_id]);
            assert(id_after(old(self).next_id(), 0) == old(self).next_id());
        }
        BootstrapStart {
            trans_id,
            target: self.table_id,
            addrs,
            timeout_millis: BOOTSTRAP_INITIAL_TIMEOUT_MILLIS,
            status: BootstrapStatus::Bootstrapping,
        }
    }

    /// The event would move the walk past the last bucket: the last awaited
    /// transaction of a completed walk ends. The walk has no bucket left to
    /// look up there.
    pub open spec fn ends_past_last_bucket(&self, trans_id: u64) -> bool {
        self.completed() && self.active() == seq![trans_id]
    }

    /// A response arrived for a transaction. Responses to the start are
    /// kept until its timeout; others end their transaction. When nothing
    /// is awaited any more, the next bucket's round follows.
    pub fn recv_response(&mut self, trans_id: u64) -> (r: BootstrapProgress)
        requires
            old(self).wf(),
            !old(self).ends_past_last_bucket(trans_id),
        ensures
            final(self).wf(),
            final(self).same_walk(old(self)),
            !old(self).active().contains(trans_id) || old(self).bucket() == 0 ==> {
                &&& final(self).active() == old(self).active()
                &&& r == BootstrapProgress::Status(old(self).spec_status())
            },
            old(self).active().contains(trans_id) && old(self).bucket() != 0 ==> {
                &&& forall|x: u64| final(self).active().contains(x) <==> (old(self).active().contains(x) && x != trans_id)
                &&& final(self).active().len() == old(self).active().len() - 1
                &&& r == (if final(self).active().len() == 0 { BootstrapProgress::NextBucket } else {
                        BootstrapProgress::Status(final(self).spec_status()) })
            },
            r is NextBucket ==> final(self).bucket() < MAX_BUCKETS,
    {
        if !contains_id(&self.active_messages, trans_id) {
            return BootstrapProgress::Status(self.current_bootstrap_status());
        }
        if self.curr_bootstrap_bucket != 0 {
            untrack(&mut self.active_messages, trans_id);
        }
        if self.active_messages.len() == 0 {
            proof {
                if old(self).is_completed {
                    assert(old(self).active_messages@ =~= seq![trans_id]) by {
                        assert(old(self).active_messages@.len() == 1);
                        assert(old(self).active_messages@[0] == trans_id);
                    }
                }
            }
            return BootstrapProgress::NextBucket;
        }
        BootstrapProgress::Status(self.current_bootstrap_status())
    }

    /// A transaction timed out: it ends, and when nothing is awaited any
    /// more, the next bucket's round follows.
    pub fn recv_timeout(&mut self, trans_id: u64) -> (r: BootstrapProgress)
        requires
            old(self).wf(),
            !old(self).ends_past_last_bucket(trans_id),
        ensures
            final(self).wf(),
            final(self).same_walk(old(self)),
            !old(self).active().contains(trans_id) ==> {
                &&& final(self).active() == old(self).active()
                &&& r == BootstrapProgress::Status(old(self).spec_status())
            },
            old(self).active().contains(trans_id) ==> {
                &&& forall|x: u64| final(self).active().contains(x) <==> (old(self).active().contains(x) && x != trans_id)
                &&& final(self).active().len() == old(self).active().len() - 1
                &&& r == (if final(self).active().len() == 0 { BootstrapProgress::NextBucket } else {
                        BootstrapProgress::Status(final(self).spec_status()) })
            },
            r is NextBucket ==> final(self).bucket() < MAX_BUCKETS,
    {
        if !untrack(&mut self.active_messages, trans_id) {
            return BootstrapProgress::Status(self.current_bootstrap_status());
        }
        if self.active_messages.len() == 0 {
            proof {
                if old(self).is_completed {
                    assert(old(self).active_messages@ =~= seq![trans_id]) by {
                        assert(old(self).active_messages@.len() == 1);
                        assert(old(self).active_messages@[0] == trans_id);
                    }
                }
            }
            return BootstrapProgress::NextBucket;
        }
        BootstrapProgress::Status(self.current_bootstrap_status())
    }

    /// Where the candidates of the next bucket round come from: for the
    /// first two buckets the nodes closest to the target, later the nodes
    /// of the bucket two before the current one and of the two after it.
    /// The target differs from the table's id in the bucket's bit.
    pub fn bootstrap_next_bucket(&self) -> (r: BootstrapSource)
        requires
            self.wf(),
            self.bucket() < MAX_BUCKETS,
        ensures
            match r {
                BootstrapSource::ClosestNodes { target } => self.bucket() < 2
                    && target@ == flip_bit(self.spec_table_id(), self.bucket() as int),
                BootstrapSource::Buckets { first, target } => self.bucket() >= 2 && first == self.bucket() - 2
                    && target@ == flip_bit(self.spec_table_id(), self.bucket() as int),
            },
    {
        let target = flip_id_bit_at_index(self.table_id, self.curr_bootstrap_bucket);
        if self.curr_bootstrap_bucket == 0 || self.curr_bootstrap_bucket == 1 {
            BootstrapSource::ClosestNodes { target }
        } else {
            BootstrapSource::Buckets { first: self.curr_bootstrap_bucket - 2, target }
        }
    }

    /// Runs the round of the current bucket: asks the first questionable
    /// candidates, each under a transaction of its own, and moves to the
    /// next bucket. After the last bucket the walk is complete; a round
    /// that asked nobody is followed at once by the next one.
    pub fn send_bootstrap_requests(&mut self, candidates: &Vec<(NodeHandle, bool)>) -> (r: BootstrapRound)
        requires
            old(self).wf(),
            old(self).bucket() < MAX_BUCKETS,
        ensures
            final(self).wf(),
            final(self).spec_table_id() == old(self).spec_table_id(),
            final(self).nodes() == old(self).nodes(),
            final(self).routers() == old(self).routers(),
            r.target@ == flip_bit(old(self).spec_table_id(), old(self).bucket() as int),
            round_requests(r.requests@, old(self).next_id(), bootstrap_picks(candidates@)),
            final(self).next_id() == id_after(old(self).next_id(), r.requests@.len()),
            final(self).bucket() == old(self).bucket() + 1,
            forall|x: u64| final(self).active().contains(x) <==> (old(self).active().contains(x)
                || requested_under(r.requests@, x)),
            r.progress == (if final(self).bucket() == MAX_BUCKETS {
                BootstrapProgress::Status(final(self).spec_status())
            } else if r.requests@.len() == 0 {
                BootstrapProgress::NextBucket
            } else {
                BootstrapProgress::Status(BootstrapStatus::Bootstrapping)
            }),
    {
        let target = flip_id_bit_at_index(self.table_id, self.curr_bootstrap_bucket);
        let picks = pick_questionable(candidates);
        let ghost a0 = self.active_messages@;
        let ghost n0 = self.id_generator.next();
        let mut requests: Vec<(u64, NodeHandle)> = Vec::new();
        let mut i: usize = 0;
        assert(picks@.take(0) =~= Seq::<NodeHandle>::empty());
        while i < picks.len()
            invariant
                i <= picks@.len(),
                self.wf(),
                self.table_id == old(self).table_id,
                self.starting_nodes == old(self).starting_nodes,
                self.starting_routers == old(self).starting_routers,
                self.curr_bootstrap_bucket == old(self).curr_bootstrap_bucket,
                self.is_completed == old(self).is_completed,
                a0 == old(self).active_messages@,
                n0 == old(self).id_generator.next(),
                round_requests(requests@, n0, picks@.take(i as int)),
                self.id_generator.next() == id_after(n0, i as nat),
                forall|x: u64| self.active_messages@.contains(x) <==> (a0.contains(x)
                    || requested_under(requests@, x)),
            decreases picks@.len() - i,
        {
            assert(forall|x: u64| self.active_messages@.contains(x) <==> (a0.contains(x) || requested_under(requests@, x)));
            let node = picks[i];
            let ghost before = self.active_messages@;
            let ghost prev = requests@;
            let id = self.id_generator.next_id();
            track(&mut self.active_messages, id);
            requests.push((id, node));
            proof {
                assert(picks@.take(i + 1) =~= picks@.take(i as int).push(node));
                assert forall|k: int| 0 <= k < requests@.len() implies (#[trigger] requests@[k]).0 == id_after(n0, k as nat)
                    && requests@[k].1 == picks@.take(i + 1)[k] by {
                    if k < i {
                        assert(requests@[k] == prev[k]);
                    }
                }
                assert forall|x: u64| self.active_messages@.contains(x) <==> (a0.contains(x)
                    || requested_under(requests@, x)) by {
                    vstd::seq_lib::lemma_seq_contains_after_push(before, id, x);
                    assert(before.contains(x) <==> (a0.contains(x) || requested_under(prev, x)));
                    assert(self.active_messages@.contains(x) <==> (before.contains(x) || x == id));
                    assert(requests@ == prev.push((id, node)));
                    if requested_under(prev, x) {
                        let k = choose|k: int| 0 <= k < prev.len() && (#[trigger] prev[k]).0 == x;
                        assert(requests@[k] == prev[k]);
                    }
                    if requested_under(requests@, x) {
                        let k = choose|k: int| 0 <= k < requests@.len() && (#[trigger] requests@[k]).0 == x;
                        if k < i {
                            assert(requests@[k] == prev[k]);
                        }
                    }
                    assert(requests@[i as int].0 == id);
                }
            }
            i = i + 1;
        }
        proof {
            assert(picks@.take(picks@.len() as int) =~= picks@);
        }
        let ghost a1 = self.active_messages@;
        assert forall|x: u64| a1.contains(x) <==> (a0.contains(x) || requested_under(requests@, x)) by {
            assert(self.active_messages@.contains(x) <==> (a0.contains(x) || requested_under(requests@, x)));
        }
        self.curr_bootstrap_bucket = self.curr_bootstrap_bucket + 1;
        let progress = if self.curr_bootstrap_bucket == MAX_BUCKETS {
            self.is_completed = true;
            BootstrapProgress::Status(self.current_bootstrap_status())
        } else if requests.len() == 0 {
            BootstrapProgress::NextBucket
        } else {
            BootstrapProgress::Status(BootstrapStatus::Bootstrapping)
        };
        assert(self.active_messages@ == a1);
        BootstrapRound { target, requests, progress }
    }

    /// The status reported between events.
    fn current_bootstrap_status(&self) -> (r: BootstrapStatus)
        ensures
            r == self.spec_status(),
    {
        if self.is_completed && self.active_messages.len() == 0 {
            BootstrapStatus::Completed
        } else {
            BootstrapStatus::Bootstrapping
        }
    }
}

} // verus!
