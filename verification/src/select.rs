use vstd::prelude::*;

use crate::peer_wire::{ExtendedMessage, PeerInfo, peer_info_eq, same_peer};
use crate::sha::InfoHash;
use crate::utracker::{ClientState, PeerAddr};

verus! {

/// Messages that every module of the selection layer sees.
#[derive(Debug, Clone, Copy)]
pub enum ControlMessage {
    AddTorrent(InfoHash),
    RemoveTorrent(InfoHash),
    PeerConnected(PeerInfo),
    PeerDisconnected(PeerInfo),
    /// Time passed, in milliseconds.
    Tick(u64),
}

/// Messages to the extended module.
#[derive(Debug, Clone, Copy)]
pub enum IExtendedMessage {
    Control(ControlMessage),
    RecievedExtendedMessage(PeerInfo, ExtendedMessage),
}

/// Messages from the extended module.
#[derive(Debug, Clone, Copy)]
pub enum OExtendedMessage {
    SendExtendedMessage(PeerInfo, ExtendedMessage),
}

/// The extended handshakes of both sides of a connection.
#[derive(Debug, Clone, Copy)]
pub struct ExtendedPeerInfo {
    ours: Option<ExtendedMessage>,
    theirs: Option<ExtendedMessage>,
}

impl ExtendedPeerInfo {
    pub closed spec fn spec_ours(&self) -> Option<ExtendedMessage> {
        self.ours
    }

    pub closed spec fn spec_theirs(&self) -> Option<ExtendedMessage> {
        self.theirs
    }

    pub fn new(ours: Option<ExtendedMessage>, theirs: Option<ExtendedMessage>) -> (r: ExtendedPeerInfo)
        ensures
            r.spec_ours() == ours,
            r.spec_theirs() == theirs,
    {
        ExtendedPeerInfo { ours, theirs }
    }

    pub fn update_ours(&mut self, message: ExtendedMessage)
        ensures
            final(self).spec_ours() == Some(message),
            final(self).spec_theirs() == old(self).spec_theirs(),
    {
        self.ours = Some(message);
    }

    pub fn update_theirs(&mut self, message: ExtendedMessage)
        ensures
            final(self).spec_theirs() == Some(message),
            final(self).spec_ours() == old(self).spec_ours(),
    {
        self.theirs = Some(message);
    }

    pub fn our_message(&self) -> (r: Option<ExtendedMessage>)
        ensures
            r == self.spec_ours(),
    {
        self.ours
    }

    pub fn their_message(&self) -> (r: Option<ExtendedMessage>)
        ensures
            r == self.spec_theirs(),
    {
        self.theirs
    }
}

/// A module that takes part in the extended handshake we send to each
/// peer and hears of the handshakes exchanged.
pub trait ExtendedListener: Sized {
    /// The handshake for the peer once this module added to `builder`.
    spec fn extended_by(&self, info: PeerInfo, builder: ExtendedMessage) -> ExtendedMessage;

    /// `after` is this module once it heard of an update of the peer's
    /// handshakes.
    spec fn heard_update(&self, info: PeerInfo, extended: ExtendedPeerInfo, after: Self) -> bool;

    /// Adds to the extended handshake for the peer.
    fn extend(&self, info: &PeerInfo, builder: ExtendedMessage) -> (r: ExtendedMessage)
        ensures
            r == self.extended_by(*info, builder),
    ;

    /// One or both sides of a connection updated their handshake.
    fn on_update(&mut self, info: &PeerInfo, extended: &ExtendedPeerInfo)
        ensures
            old(self).heard_update(*info, *extended, *final(self)),
    ;
}

/// The handshake that `builder` becomes once each module, in order, added
/// to it.
pub open spec fn extended_through<L: ExtendedListener>(mods: Seq<L>, info: PeerInfo, builder: ExtendedMessage) -> ExtendedMessage
    decreases mods.len(),
{
    if mods.len() == 0 {
        builder
    } else {
        mods.last().extended_by(info, extended_through(mods.drop_last(), info, builder))
    }
}

/// Each module heard of the update: `after` holds the modules as they
/// came out of it.
pub open spec fn all_heard<L: ExtendedListener>(before: Seq<L>, info: PeerInfo, extended: ExtendedPeerInfo, after: Seq<L>) -> bool {
    &&& after.len() == before.len()
    &&& forall|j: int| 0 <= j < before.len() ==> #[trigger] before[j].heard_update(info, extended, after[j])
}

/// The entry of a peer.
pub open spec fn peer_entry(s: Seq<(PeerInfo, ExtendedPeerInfo)>, info: PeerInfo) -> Option<ExtendedPeerInfo> {
    if exists|i: int| 0 <= i < s.len() && same_peer((#[trigger] s[i]).0, info) {
        Some(s[choose|i: int| 0 <= i < s.len() && same_peer((#[trigger] s[i]).0, info)].1)
    } else {
        None
    }
}

/// No peer has two entries.
pub open spec fn unique_peers(s: Seq<(PeerInfo, ExtendedPeerInfo)>) -> bool {
    forall|i: int, j: int| 0 <= i < j < s.len() ==> !same_peer((#[trigger] s[i]).0, (#[trigger] s[j]).0)
}

proof fn lemma_peer_entry_at(s: Seq<(PeerInfo, ExtendedPeerInfo)>, info: PeerInfo, i: int)
    requires
        unique_peers(s),
        0 <= i < s.len(),
        same_peer(s[i].0, info),
    ensures
        peer_entry(s, info) == Some(s[i].1),
{
    let k = choose|k: int| 0 <= k < s.len() && same_peer((#[trigger] s[k]).0, info);
    if k < i {
        assert(!same_peer(s[k].0, s[i].0));
    } else if k > i {
        assert(!same_peer(s[i].0, s[k].0));
    }
}

/// What handling a message does to the extended module and to the modules
/// `mods` around it, which come out as `mods_after`: a connecting peer gets
/// our handshake with each module's additions in turn, which is recorded
/// and queued for sending; a disconnecting peer is forgotten; a handshake
/// from a known peer is recorded. Each module hears of every update.
pub open spec fn processed<L: ExtendedListener>(before: ExtendedModule, after: ExtendedModule, message: IExtendedMessage,
    mods: Seq<L>, mods_after: Seq<L>) -> bool {
    &&& after.wf()
    &&& after.spec_builder() == before.spec_builder()
    &&& match message {
        IExtendedMessage::Control(ControlMessage::PeerConnected(info)) => {
            let ours = extended_through(mods, info, before.spec_builder());
            let peer = ExtendedPeerInfo::new_spec(Some(ours), None);
            &&& after.entry(info) == Some(peer)
            &&& after.queue() == before.queue().push(OExtendedMessage::SendExtendedMessage(info, ours))
            &&& forall|other: PeerInfo| !same_peer(other, info) ==> #[trigger] after.entry(other) == before.entry(other)
            &&& all_heard(mods, info, peer, mods_after)
        },
        IExtendedMessage::Control(ControlMessage::PeerDisconnected(info)) =>
            after.entry(info) is None
            && after.queue() == before.queue()
            && (forall|other: PeerInfo| !same_peer(other, info) ==> #[trigger] after.entry(other) == before.entry(other))
            && mods_after == mods,
        IExtendedMessage::RecievedExtendedMessage(info, msg) =>
            after.queue() == before.queue()
            && (forall|other: PeerInfo| !same_peer(other, info) ==> #[trigger] after.entry(other) == before.entry(other))
            && match before.entry(info) {
                None => after.entry(info) is None && mods_after == mods,
                Some(e) => {
                    let peer = ExtendedPeerInfo::new_spec(e.spec_ours(), Some(msg));
                    after.entry(info) == Some(peer) && all_heard(mods, info, peer, mods_after)
                },
            },
        IExtendedMessage::Control(_) =>
            after.queue() == before.queue()
            && (forall|other: PeerInfo| #[trigger] after.entry(other) == before.entry(other))
            && mods_after == mods,
    }
}

/// Sends our extended handshake to each peer that connects and keeps
/// both sides' handshakes.
pub struct ExtendedModule {
    builder: ExtendedMessage,
    peers: Vec<(PeerInfo, ExtendedPeerInfo)>,
    out_queue: Vec<OExtendedMessage>,
}

impl ExtendedModule {
    pub closed spec fn wf(&self) -> bool {
        unique_peers(self.peers@)
    }

    /// The handshakes of a peer.
    pub closed spec fn entry(&self, info: PeerInfo) -> Option<ExtendedPeerInfo> {
        peer_entry(self.peers@, info)
    }

    /// Messages waiting to be sent, oldest first.
    pub closed spec fn queue(&self) -> Seq<OExtendedMessage> {
        self.out_queue@
    }

    pub closed spec fn spec_builder(&self) -> ExtendedMessage {
        self.builder
    }

    pub fn new(builder: ExtendedMessage) -> (r: ExtendedModule)
        ensures
            r.wf(),
            r.spec_builder() == builder,
            r.queue().len() == 0,
            forall|info: PeerInfo| #[trigger] r.entry(info) is None,
    {
        ExtendedModule { builder, peers: Vec::new(), out_queue: Vec::new() }
    }

    fn find(&self, info: &PeerInfo) -> (r: Option<usize>)
        requires
            self.wf(),
        ensures
            r matches Some(i) ==> i < self.peers@.len() && same_peer(self.peers@[i as int].0, *info),
            r is None ==> forall|i: int| 0 <= i < self.peers@.len() ==> !same_peer((#[trigger] self.peers@[i]).0, *info),
    {
        let mut i: usize = 0;
        while i < self.peers.len()
            invariant
                i <= self.peers@.len(),
                forall|j: int| 0 <= j < i ==> !same_peer((#[trigger] self.peers@[j]).0, *info),
            decreases self.peers@.len() - i,
        {
            if peer_info_eq(&self.peers[i].0, info) {
                return Some(i);
            }
            i = i + 1;
        }
        None
    }

    /// Tells every module of an update of the peer's handshakes.
    fn notify<L: ExtendedListener>(info: &PeerInfo, ext: &ExtendedPeerInfo, d_modules: &mut Vec<L>)
        ensures
            all_heard(old(d_modules)@, *info, *ext, final(d_modules)@),
    {
        let ghost m0 = d_modules@;
        let mut i: usize = 0;
        while i < d_modules.len()
            invariant
                i <= d_modules@.len(),
                m0 == old(d_modules)@,
                d_modules@.len() == m0.len(),
                forall|j: int| 0 <= j < i ==> #[trigger] m0[j].heard_update(*info, *ext, d_modules@[j]),
                forall|j: int| i <= j < m0.len() ==> #[trigger] d_modules@[j] == m0[j],
            decreases d_modules@.len() - i,
        {
            let ghost before = d_modules@;
            let mut m = d_modules.remove(i);
            m.on_update(info, ext);
            d_modules.insert(i, m);
            proof {
                assert forall|j: int| 0 <= j < i + 1 implies #[trigger] m0[j].heard_update(*info, *ext, d_modules@[j]) by {
                    if j < i {
                        assert(d_modules@[j] == before[j]);
                    }
                }
                assert forall|j: int| i + 1 <= j < m0.len() implies #[trigger] d_modules@[j] == m0[j] by {
                    assert(d_modules@[j] == before[j]);
                }
            }
            i = i + 1;
        }
    }

    /// Sets the entry of a peer, replacing any it had.
    fn put(&mut self, info: PeerInfo, ext: ExtendedPeerInfo)
        requires
            old(self).wf(),
        ensures
            final(self).wf(),
            final(self).entry(info) == Some(ext),
            forall|other: PeerInfo| !same_peer(other, info) ==> #[trigger] final(self).entry(other) == old(self).entry(other),
            final(self).queue() == old(self).queue(),
            final(self).spec_builder() == old(self).spec_builder(),
    {
        let ghost s = self.peers@;
        match self.find(&info) {
            Some(i) => {
                self.peers.set(i, (info, ext));
                proof {
                    let u = self.peers@;
                    assert forall|a: int, b: int| 0 <= a < b < u.len() implies !same_peer((#[trigger] u[a]).0, (#[trigger] u[b]).0) by {
                        assert(u[a].0 == s[a].0 || a == i);
                        if a == i {
                            assert(!same_peer(s[a].0, s[b].0));
                        } else if b == i {
                            assert(!same_peer(s[a].0, s[b].0));
                        } else {
                            assert(u[a] == s[a] && u[b] == s[b]);
                        }
                    }
                    lemma_peer_entry_at(u, info, i as int);
                    assert forall|other: PeerInfo| !same_peer(other, info) implies #[trigger] peer_entry(u, other) == peer_entry(s, other) by {
                        if exists|k: int| 0 <= k < s.len() && same_peer((#[trigger] s[k]).0, other) {
                            let k = choose|k: int| 0 <= k < s.len() && same_peer((#[trigger] s[k]).0, other);
                            lemma_peer_entry_at(s, other, k);
                            if k == i {
                                assert(same_peer(info, other));
                            }
                            assert(u[k] == s[k]);
                            lemma_peer_entry_at(u, other, k);
                        } else {
                            assert(!(exists|k: int| 0 <= k < u.len() && same_peer((#[trigger] u[k]).0, other))) by {
                                if exists|k: int| 0 <= k < u.len() && same_peer((#[trigger] u[k]).0, other) {
                                    let k = choose|k: int| 0 <= k < u.len() && same_peer((#[trigger] u[k]).0, other);
                                    if k == i {
                                        assert(same_peer(info, other));
                                    } else {
                                        assert(u[k] == s[k]);
                                    }
                                }
                            }
                        }
                    }
                }
            },
            None => {
                self.peers.push((info, ext));
                proof {
                    let u = self.peers@;
                    assert forall|a: int, b: int| 0 <= a < b < u.len() implies !same_peer((#[trigger] u[a]).0, (#[trigger] u[b]).0) by {
                        if b == u.len() - 1 {
                            assert(!same_peer(s[a].0, info));
                        } else {
                            assert(u[a] == s[a] && u[b] == s[b]);
                        }
                    }
                    lemma_peer_entry_at(u, info, u.len() - 1);
                    assert forall|other: PeerInfo| !same_peer(other, info) implies #[trigger] peer_entry(u, other) == peer_entry(s, other) by {
                        if exists|k: int| 0 <= k < s.len() && same_peer((#[trigger] s[k]).0, other) {
                            let k = choose|k: int| 0 <= k < s.len() && same_peer((#[trigger] s[k]).0, other);
                            lemma_peer_entry_at(s, other, k);
                            assert(u[k] == s[k]);
                            lemma_peer_entry_at(u, other, k);
                        } else {
                            assert(!(exists|k: int| 0 <= k < u.len() && same_peer((#[trigger] u[k]).0, other))) by {
                                if exists|k: int| 0 <= k < u.len() && same_peer((#[trigger] u[k]).0, other) {
                                    let k = choose|k: int| 0 <= k < u.len() && same_peer((#[trigger] u[k]).0, other);
                                    if k < s.len() {
                                        assert(u[k] == s[k]);
                                    } else {
                                        assert(same_peer(info, other));
                                    }
                                }
                            }
                        }
                    }
                }
            },
        }
    }

    /// Removes the entry of a peer.
    fn drop_peer(&mut self, info: &PeerInfo)
        requires
            old(self).wf(),
        ensures
            final(self).wf(),
            final(self).entry(*info) is None,
            forall|other: PeerInfo| !same_peer(other, *info) ==> #[trigger] final(self).entry(other) == old(self).entry(other),
            final(self).queue() == old(self).queue(),
            final(self).spec_builder() == old(self).spec_builder(),
    {
        let ghost s = self.peers@;
        match self.find(info) {
            Some(i) => {
                self.peers.remove(i);
                proof {
                    let u = self.peers@;
                    assert forall|a: int, b: int| 0 <= a < b < u.len() implies !same_peer((#[trigger] u[a]).0, (#[trigger] u[b]).0) by {
                        let a0 = if a < i { a } else { a + 1 };
                        let b0 = if b < i { b } else { b + 1 };
                        assert(u[a] == s[a0] && u[b] == s[b0]);
                    }
                    assert(!(exists|k: int| 0 <= k < u.len() && same_peer((#[trigger] u[k]).0, *info))) by {
                        if exists|k: int| 0 <= k < u.len() && same_peer((#[trigger] u[k]).0, *info) {
                            let k = choose|k: int| 0 <= k < u.len() && same_peer((#[trigger] u[k]).0, *info);
                            let k0 = if k < i { k } else { k + 1 };
                            assert(u[k] == s[k0]);
                            if k0 < i {
                                assert(!same_peer(s[k0].0, s[i as int].0));
                            } else {
                                assert(!same_peer(s[i as int].0, s[k0].0));
                            }
                        }
                    }
                    assert forall|other: PeerInfo| !same_peer(other, *info) implies #[trigger] peer_entry(u, other) == peer_entry(s, other) by {
                        if exists|k: int| 0 <= k < s.len() && same_peer((#[trigger] s[k]).0, other) {
                            let k = choose|k: int| 0 <= k < s.len() && same_peer((#[trigger] s[k]).0, other);
                            lemma_peer_entry_at(s, other, k);
                            if k == i {
                                assert(same_peer(*info, other));
                            }
                            let k1 = if k < i { k } else { k - 1 };
                            assert(u[k1] == s[k]);
                            lemma_peer_entry_at(u, other, k1);
                        } else {
                            assert(!(exists|k: int| 0 <= k < u.len() && same_peer((#[trigger] u[k]).0, other))) by {
                                if exists|k: int| 0 <= k < u.len() && same_peer((#[trigger] u[k]).0, other) {
                                    let k = choose|k: int| 0 <= k < u.len() && same_peer((#[trigger] u[k]).0, other);
                                    let k0 = if k < i { k } else { k + 1 };
                                    assert(u[k] == s[k0]);
                                }
                            }
                        }
                    }
                }
            },
            None => {},
        }
    }

    /// Handles a message: a connecting peer gets our extended handshake,
    /// built from ours with every module's additions, and is recorded; a
    /// disconnecting peer is forgotten; a handshake received from a known
    /// peer is recorded. Modules hear of every update.
    pub fn process_message<L: ExtendedListener>(&mut self, message: IExtendedMessage, d_modules: &mut Vec<L>)
        requires
            old(self).wf(),
        ensures
            final(self).wf(),
            processed(*old(self), *final(self), message, old(d_modules)@, final(d_modules)@),
    {
        match message {
            IExtendedMessage::Control(ControlMessage::PeerConnected(info)) => {
                let mut builder = self.builder;
                let mut i: usize = 0;
                while i < d_modules.len()
                    invariant
                        i <= d_modules@.len(),
                        d_modules@ == old(d_modules)@,
                        builder == extended_through(d_modules@.take(i as int), info, old(self).builder),
                    decreases d_modules@.len() - i,
                {
                    proof {
                        assert(d_modules@.take(i + 1).drop_last() =~= d_modules@.take(i as int));
                    }
                    builder = d_modules[i].extend(&info, builder);
                    i = i + 1;
                }
                proof {
                    assert(d_modules@.take(d_modules@.len() as int) =~= d_modules@);
                }
                let ext_message = builder;
                let ext_peer_info = ExtendedPeerInfo::new(Some(ext_message), None);
                Self::notify(&info, &ext_peer_info, d_modules);
                let ghost q0 = self.out_queue@;
                self.put(info, ext_peer_info);
                let ghost p1 = self.peers@;
                let ghost s1 = *self;
                self.out_queue.push(OExtendedMessage::SendExtendedMessage(info, ext_message));
                proof {
                    assert(self.peers@ == p1);
                    assert forall|other: PeerInfo| !same_peer(other, info) implies #[trigger] self.entry(other) == old(self).entry(other) by {
                        assert(self.entry(other) == s1.entry(other));
                    }
                    assert(self.entry(info) == Some(ExtendedPeerInfo::new_spec(Some(ext_message), None)));
                    assert(self.queue() == old(self).queue().push(OExtendedMessage::SendExtendedMessage(info, ext_message)));
                }
            },
            IExtendedMessage::Control(ControlMessage::PeerDisconnected(info)) => {
                self.drop_peer(&info);
            },
            IExtendedMessage::RecievedExtendedMessage(info, ext_message) => {
                match self.find(&info) {
                    Some(i) => {
                        proof {
                            lemma_peer_entry_at(self.peers@, info, i as int);
                        }
                        let mut ext_peer_info = self.peers[i].1;
                        ext_peer_info.update_theirs(ext_message);
                        Self::notify(&info, &ext_peer_info, d_modules);
                        self.put(info, ext_peer_info);
                    },
                    None => {
                        assert(!(exists|k: int| 0 <= k < self.peers@.len() && same_peer((#[trigger] self.peers@[k]).0, info)));
                    },
                }
            },
            IExtendedMessage::Control(_) => {},
        }
    }

    /// Takes the oldest message waiting to be sent.
    pub fn poll(&mut self) -> (r: Option<OExtendedMessage>)
        ensures
            old(self).queue().len() == 0 ==> r is None && final(self).queue() == old(self).queue(),
            old(self).queue().len() > 0 ==> r == Some(old(self).queue()[0]) && final(self).queue() == old(self).queue().drop_first(),
            final(self).wf() == old(self).wf(),
            forall|info: PeerInfo| #[trigger] final(self).entry(info) == old(self).entry(info),
            final(self).spec_builder() == old(self).spec_builder(),
    {
        if self.out_queue.len() > 0 {
            Some(self.out_queue.remove(0))
        } else {
            None
        }
    }
}

impl ExtendedPeerInfo {
    /// The value `new` builds.
    pub closed spec fn new_spec(ours: Option<ExtendedMessage>, theirs: Option<ExtendedMessage>) -> ExtendedPeerInfo {
        ExtendedPeerInfo { ours, theirs }
    }
}

// ---------------------------------------------------------------------------
// The uber module's round over its modules.

/// Which module a round is at.
#[derive(Debug, Clone, Copy, PartialEq, Eq, Structural)]
pub enum ModuleState {
    Extended,
    Discovery(usize),
}

/// The module after `state` in a round: the extended module first (when
/// there is one), then each discovery module in order; `None` after the
/// last.
pub open spec fn spec_next_state(has_extended: bool, n_discovery: nat, state: Option<ModuleState>) -> Option<ModuleState> {
    match state {
        None => if has_extended {
            Some(ModuleState::Extended)
        } else if n_discovery > 0 {
            Some(ModuleState::Discovery(0))
        } else {
            None
        },
        Some(ModuleState::Extended) => if n_discovery > 0 { Some(ModuleState::Discovery(0)) } else { None },
        Some(ModuleState::Discovery(index)) => if index + 1 < n_discovery {
            Some(ModuleState::Discovery((index + 1) as usize))
        } else {
            None
        },
    }
}

/// How far a round still has to go from `at`, with `n` discovery modules.
pub open spec fn round_left_of(n: nat, at: Option<ModuleState>) -> int {
    match at {
        None => n + 2int,
        Some(ModuleState::Extended) => n + 1int,
        Some(ModuleState::Discovery(i)) => n - i,
    }
}

/// Every step of a round brings it closer to its end.
pub proof fn lemma_next_state_closer(has_extended: bool, n: nat, at: Option<ModuleState>)
    requires
        n <= usize::MAX,
    ensures
        spec_next_state(has_extended, n, at) matches Some(st) ==>
            0 <= round_left_of(n, Some(st)) < round_left_of(n, at),
{
}

/// The state after `state`.
pub fn next_state(has_extended: bool, n_discovery: usize, state: Option<ModuleState>) -> (r: Option<ModuleState>)
    ensures
        r == spec_next_state(has_extended, n_discovery as nat, state),
{
    match state {
        None => {
            if has_extended {
                Some(ModuleState::Extended)
            } else if n_discovery > 0 {
                Some(ModuleState::Discovery(0))
            } else {
                None
            }
        },
        Some(ModuleState::Extended) => {
            if n_discovery > 0 {
                Some(ModuleState::Discovery(0))
            } else {
                None
            }
        },
        Some(ModuleState::Discovery(index)) => {
            if index < n_discovery && index + 1 < n_discovery {
                Some(ModuleState::Discovery(index + 1))
            } else {
                None
            }
        },
    }
}

/// The states a round goes through, starting after `state`, at most
/// `fuel` of them.
pub open spec fn round_from(has_extended: bool, n_discovery: nat, state: Option<ModuleState>, fuel: nat) -> Seq<ModuleState>
    decreases fuel,
{
    if fuel == 0 {
        Seq::empty()
    } else {
        match spec_next_state(has_extended, n_discovery, state) {
            None => Seq::empty(),
            Some(s) => seq![s] + round_from(has_extended, n_discovery, Some(s), (fuel - 1) as nat),
        }
    }
}

/// The discovery modules from `from` on, in order.
pub open spec fn discovery_states(from: nat, n: nat) -> Seq<ModuleState> {
    Seq::new((n - from) as nat, |i: int| ModuleState::Discovery((from + i) as usize))
}

/// A round visits every module once, in order: the extended module if there
/// is one, then every discovery module from the first to the last; then
/// the round ends.
pub proof fn lemma_round_visits_each_module(has_extended: bool, n_discovery: nat)
    requires
        n_discovery <= usize::MAX,
    ensures
        round_from(has_extended, n_discovery, None, n_discovery + 2) ==
            (if has_extended { seq![ModuleState::Extended] } else { Seq::empty() }) + discovery_states(0, n_discovery),
{
    if n_discovery == 0 {
        if has_extended {
            assert(round_from(has_extended, 0, Some(ModuleState::Extended), 1) =~= Seq::empty());
        }
        assert(round_from(has_extended, 0, None, 2) =~= (if has_extended { seq![ModuleState::Extended] } else { Seq::<ModuleState>::empty() }) + discovery_states(0, 0));
    } else {
        if has_extended {
            assert(round_from(has_extended, n_discovery, Some(ModuleState::Extended), n_discovery + 1)
                == seq![ModuleState::Discovery(0)] + round_from(has_extended, n_discovery, Some(ModuleState::Discovery(0)), n_discovery));
            lemma_discovery_tail(has_extended, n_discovery, 0, n_discovery + 1);
            assert(round_from(has_extended, n_discovery, None, n_discovery + 2) =~= seq![ModuleState::Extended] + discovery_states(0, n_discovery));
        } else {
            lemma_discovery_tail(has_extended, n_discovery, 0, n_discovery + 2);
            assert(round_from(has_extended, n_discovery, None, n_discovery + 2) =~= discovery_states(0, n_discovery));
        }
    }
}

proof fn lemma_discovery_tail(has_extended: bool, n: nat, k: nat, fuel: nat)
    requires
        k < n,
        n <= usize::MAX,
        fuel >= n - k,
    ensures
        seq![ModuleState::Discovery(k as usize)] + round_from(has_extended, n, Some(ModuleState::Discovery(k as usize)), (fuel - 1) as nat)
            == discovery_states(k, n),
    decreases n - k,
{
    if k + 1 < n {
        lemma_discovery_tail(has_extended, n, k + 1, (fuel - 1) as nat);
        assert(seq![ModuleState::Discovery(k as usize)] + round_from(has_extended, n, Some(ModuleState::Discovery(k as usize)), (fuel - 1) as nat)
            =~= discovery_states(k, n));
    } else {
        assert(seq![ModuleState::Discovery(k as usize)] + round_from(has_extended, n, Some(ModuleState::Discovery(k as usize)), (fuel - 1) as nat)
            =~= discovery_states(k, n));
    }
}

// ---------------------------------------------------------------------------
// Discovery modules and the uber module.

/// Messages to a discovery module.
#[derive(Debug, Clone)]
pub enum IDiscoveryMessage {
    Control(ControlMessage),
    /// Find peers and download the metainfo of the torrent.
    DownloadMetainfo(InfoHash),
    /// A `ut_metadata` message received from a peer, as its encoded bytes.
    ReceivedUtMetadataMessage(PeerInfo, Vec<u8>),
}

/// Messages from a discovery module.
#[derive(Debug, Clone)]
pub enum ODiscoveryMessage {
    /// Announce the torrent on the DHT.
    SendDhtAnnounce(InfoHash),
    /// Announce the torrent to a UDP tracker.
    SendUdpTrackerAnnounce(InfoHash, PeerAddr, ClientState),
    /// Send a `ut_metadata` message, as its encoded bytes.
    SendUtMetadataMessage(PeerInfo, Vec<u8>),
    /// The metainfo of the torrent was downloaded, as its bytes.
    DownloadedMetainfo(Vec<u8>),
}

/// Why a discovery module refused a message.
#[derive(Debug, Clone, Copy, PartialEq, Eq, Structural)]
pub enum DiscoveryError {
    InvalidMessage,
}

/// Why the uber module could not pass a message on.
#[derive(Debug, Clone, Copy, PartialEq, Eq, Structural)]
pub enum UberError {
    Discovery(DiscoveryError),
}

/// The part of a discovery module that takes messages in and gives
/// messages out.
pub trait Run: Sized {
    /// `r` and `after` are what the module made of taking in `item`.
    spec fn took(&self, item: IDiscoveryMessage, r: Result<Option<IDiscoveryMessage>, DiscoveryError>, after: Self) -> bool;

    /// `r` and `after` are what the module made of being asked for a
    /// message.
    spec fn gave(&self, r: Option<Result<ODiscoveryMessage, DiscoveryError>>, after: Self) -> bool;

    fn send(&mut self, item: IDiscoveryMessage) -> (r: Result<Option<IDiscoveryMessage>, DiscoveryError>)
        ensures
            old(self).took(item, r, *final(self)),
    ;

    /// The next message the module has to give, if any.
    fn poll(&mut self) -> (r: Option<Result<ODiscoveryMessage, DiscoveryError>>)
        ensures
            old(self).gave(r, *final(self)),
    ;
}

/// A discovery module: it takes part in extended handshakes and takes
/// messages in.
pub trait DiscoveryTrait: ExtendedListener + Run {}

/// Messages to the uber module.
#[derive(Debug, Clone)]
pub enum IUberMessage {
    /// Broadcast a control message to all modules.
    Control(ControlMessage),
    /// Send a message to the extended module.
    Extended(IExtendedMessage),
    /// Send a message to all discovery modules.
    Discovery(IDiscoveryMessage),
}

/// Messages from the uber module.
#[derive(Debug, Clone)]
pub enum OUberMessage {
    /// A message of the extended module.
    Extended(OExtendedMessage),
    /// A message of a discovery module.
    Discovery(ODiscoveryMessage),
}

/// What the uber module reports of a discovery module's answer to a send.
pub open spec fn sent_result(res: Result<Option<IDiscoveryMessage>, DiscoveryError>) -> Result<Option<()>, UberError> {
    match res {
        Ok(Some(_)) => Ok(Some(())),
        Ok(None) => Ok(None),
        Err(e) => Err(UberError::Discovery(e)),
    }
}

/// What the uber module reports of a discovery module's answer to a poll.
pub open spec fn polled_result(res: Option<Result<ODiscoveryMessage, DiscoveryError>>) -> Result<Option<OUberMessage>, UberError> {
    match res {
        None => Ok(None),
        Some(Ok(m)) => Ok(Some(OUberMessage::Discovery(m))),
        Some(Err(e)) => Err(UberError::Discovery(e)),
    }
}

/// Two discovery messages carry the same content.
pub open spec fn same_item(a: IDiscoveryMessage, b: IDiscoveryMessage) -> bool {
    match (a, b) {
        (IDiscoveryMessage::Control(x), IDiscoveryMessage::Control(y)) => x == y,
        (IDiscoveryMessage::DownloadMetainfo(x), IDiscoveryMessage::DownloadMetainfo(y)) => x@ == y@,
        (IDiscoveryMessage::ReceivedUtMetadataMessage(p, x), IDiscoveryMessage::ReceivedUtMetadataMessage(q, y)) =>
            p == q && x@ == y@,
        _ => false,
    }
}

/// A discovery module takes the message for the uber message: a control
/// message as it is, a discovery message with the same content.
pub open spec fn item_for(message: IUberMessage, item: IDiscoveryMessage) -> bool {
    match message {
        IUberMessage::Control(c) => item == IDiscoveryMessage::Control(c),
        IUberMessage::Discovery(d) => same_item(item, d),
        IUberMessage::Extended(_) => false,
    }
}

impl IDiscoveryMessage {
    /// A copy of the message.
    pub fn copy_item(&self) -> (r: IDiscoveryMessage)
        ensures
            same_item(r, *self),
    {
        match self {
            IDiscoveryMessage::Control(c) => IDiscoveryMessage::Control(*c),
            IDiscoveryMessage::DownloadMetainfo(h) => IDiscoveryMessage::DownloadMetainfo(*h),
            IDiscoveryMessage::ReceivedUtMetadataMessage(p, v) =>
                IDiscoveryMessage::ReceivedUtMetadataMessage(*p, vstd::slice::slice_to_vec(v.as_slice())),
        }
    }
}

/// Builder of an `UberModule`.
pub struct UberModuleBuilder<D> {
    ext_builder: Option<ExtendedMessage>,
    discovery: Vec<D>,
}

impl<D: DiscoveryTrait> UberModuleBuilder<D> {
    pub closed spec fn spec_ext_builder(&self) -> Option<ExtendedMessage> {
        self.ext_builder
    }

    pub closed spec fn discovery_count(&self) -> nat {
        self.discovery@.len()
    }

    /// The discovery modules added, in order.
    pub closed spec fn discovery_modules(&self) -> Seq<D> {
        self.discovery@
    }

    /// A builder with no extended handshake and no discovery module.
    pub fn new() -> (r: UberModuleBuilder<D>)
        ensures
            r.spec_ext_builder() is None,
            r.discovery_count() == 0,
            r.discovery_modules() == Seq::<D>::empty(),
    {
        UberModuleBuilder { ext_builder: None, discovery: Vec::new() }
    }

    /// Sets the extended handshake that every module adds to; without one
    /// no extended handshake is sent.
    pub fn with_extended_builder(self, builder: Option<ExtendedMessage>) -> (r: UberModuleBuilder<D>)
        ensures
            r.spec_ext_builder() == builder,
            r.discovery_count() == self.discovery_count(),
            r.discovery_modules() == self.discovery_modules(),
    {
        UberModuleBuilder { ext_builder: builder, discovery: self.discovery }
    }

    /// Adds a discovery module.
    pub fn with_discovery_module(self, module: D) -> (r: UberModuleBuilder<D>)
        ensures
            r.spec_ext_builder() == self.spec_ext_builder(),
            r.discovery_count() == self.discovery_count() + 1,
            r.discovery_modules() == self.discovery_modules().push(module),
    {
        let mut discovery = self.discovery;
        discovery.push(module);
        UberModuleBuilder { ext_builder: self.ext_builder, discovery }
    }

    pub fn build(self) -> (r: UberModule<D>)
        ensures
            r.has_extended() == (self.spec_ext_builder() is Some),
            r.discovery_count() == self.discovery_count(),
            r.sink_state() is None,
            r.stream_state() is None,
            r.wf(),
            match self.spec_ext_builder() {
                Some(b) => r.extended_module() matches Some(e) && e.spec_builder() == b && e.queue().len() == 0
                    && forall|info: PeerInfo| #[trigger] e.entry(info) is None,
                None => r.extended_module() is None,
            },
            r.discovery_modules() == self.discovery_modules(),
    {
        UberModule::from_builder(self)
    }
}

/// Passes messages on to the extended module and the discovery modules,
/// one module after another.
pub struct UberModule<D> {
    extended: Option<ExtendedModule>,
    discovery: Vec<D>,
    last_sink_state: Option<ModuleState>,
    last_stream_state: Option<ModuleState>,
}

impl<D: DiscoveryTrait> UberModule<D> {
    pub closed spec fn has_extended(&self) -> bool {
        self.extended is Some
    }

    pub closed spec fn discovery_count(&self) -> nat {
        self.discovery@.len()
    }

    /// The extended module, if there is one.
    pub closed spec fn extended_module(&self) -> Option<ExtendedModule> {
        self.extended
    }

    /// The discovery modules, in order.
    pub closed spec fn discovery_modules(&self) -> Seq<D> {
        self.discovery@
    }

    /// The module a send stopped at last, if it stopped on an error.
    pub closed spec fn sink_state(&self) -> Option<ModuleState> {
        self.last_sink_state
    }

    /// The module a poll stopped at last, if it stopped on a message or an
    /// error.
    pub closed spec fn stream_state(&self) -> Option<ModuleState> {
        self.last_stream_state
    }

    pub closed spec fn wf(&self) -> bool {
        &&& self.extended matches Some(e) ==> e.wf()
        &&& self.last_sink_state matches Some(ModuleState::Discovery(i)) ==> i < self.discovery@.len()
        &&& self.last_sink_state matches Some(ModuleState::Extended) ==> self.extended is Some
        &&& self.last_stream_state matches Some(ModuleState::Discovery(i)) ==> i < self.discovery@.len()
        &&& self.last_stream_state matches Some(ModuleState::Extended) ==> self.extended is Some
    }

    pub fn from_builder(builder: UberModuleBuilder<D>) -> (r: UberModule<D>)
        ensures
            r.has_extended() == (builder.spec_ext_builder() is Some),
            r.discovery_count() == builder.discovery_count(),
            r.sink_state() is None,
            r.stream_state() is None,
            r.wf(),
            match builder.spec_ext_builder() {
                Some(b) => r.extended_module() matches Some(e) && e.spec_builder() == b && e.queue().len() == 0
                    && forall|info: PeerInfo| #[trigger] e.entry(info) is None,
                None => r.extended_module() is None,
            },
            r.discovery_modules() == builder.discovery_modules(),
    {
        let extended = match builder.ext_builder {
            Some(b) => Some(ExtendedModule::new(b)),
            None => None,
        };
        UberModule { extended, discovery: builder.discovery, last_sink_state: None, last_stream_state: None }
    }

    /// What delivering `message` to the module `state` does: the module in
    /// `before` takes the message and `after` and `r` are what comes out.
    pub closed spec fn delivered(&self, state: ModuleState, message: IUberMessage, after: UberModule<D>,
        r: Result<Option<()>, UberError>) -> bool {
        let before = *self;
        &&& after.wf()
        &&& after.discovery@.len() == before.discovery@.len()
        &&& after.extended is Some == before.extended is Some
        &&& after.last_sink_state == before.last_sink_state
        &&& after.last_stream_state == before.last_stream_state
        &&& state is Extended ==> r == Ok::<Option<()>, UberError>(None)
        &&& match (state, message) {
                (ModuleState::Extended, IUberMessage::Control(c)) => match before.extended {
                    Some(e) => after.extended matches Some(e2)
                        && processed(e, e2, IExtendedMessage::Control(c), before.discovery@, after.discovery@),
                    None => after.extended is None && after.discovery@ == before.discovery@,
                },
                (ModuleState::Extended, IUberMessage::Extended(m)) => match before.extended {
                    Some(e) => after.extended matches Some(e2)
                        && processed(e, e2, m, before.discovery@, after.discovery@),
                    None => after.extended is None && after.discovery@ == before.discovery@,
                },
                (ModuleState::Discovery(_), IUberMessage::Extended(_)) | (ModuleState::Extended, IUberMessage::Discovery(_)) =>
                    r == Ok::<Option<()>, UberError>(None)
                    && after.extended == before.extended
                    && after.discovery@ == before.discovery@,
                (ModuleState::Discovery(i), _) =>
                    after.extended == before.extended
                    && (forall|j: int| 0 <= j < before.discovery@.len() && j != i ==>
                        #[trigger] after.discovery@[j] == before.discovery@[j])
                    && exists|item: IDiscoveryMessage, res: Result<Option<IDiscoveryMessage>, DiscoveryError>|
                        item_for(message, item)
                        && #[trigger] before.discovery@[i as int].took(item, res, after.discovery@[i as int])
                        && r == sent_result(res)
            }
    }

    /// What asking the module `state` for a message does: `after` and `r`
    /// are what comes out.
    pub closed spec fn took_from(&self, state: ModuleState, after: UberModule<D>,
        r: Result<Option<OUberMessage>, UberError>) -> bool {
        let before = *self;
        &&& after.wf()
        &&& after.discovery@.len() == before.discovery@.len()
        &&& after.extended is Some == before.extended is Some
        &&& after.last_sink_state == before.last_sink_state
        &&& after.last_stream_state == before.last_stream_state
        &&& state is Extended ==> r is Ok
        &&& match state {
                ModuleState::Extended => after.discovery@ == before.discovery@ && match before.extended {
                    None => r == Ok::<Option<OUberMessage>, UberError>(None) && after.extended is None,
                    Some(e) => after.extended matches Some(e2)
                        && e2.spec_builder() == e.spec_builder()
                        && (forall|info: PeerInfo| #[trigger] e2.entry(info) == e.entry(info))
                        && (e.queue().len() == 0 ==> r == Ok::<Option<OUberMessage>, UberError>(None) && e2.queue() == e.queue())
                        && (e.queue().len() > 0 ==> r == Ok::<Option<OUberMessage>, UberError>(Some(OUberMessage::Extended(e.queue()[0])))
                            && e2.queue() == e.queue().drop_first()),
                },
                ModuleState::Discovery(i) => after.extended == before.extended
                    && (forall|j: int| 0 <= j < before.discovery@.len() && j != i ==>
                        #[trigger] after.discovery@[j] == before.discovery@[j])
                    && exists|res: Option<Result<ODiscoveryMessage, DiscoveryError>>|
                        #[trigger] before.discovery@[i as int].gave(res, after.discovery@[i as int])
                        && r == polled_result(res)
            }
    }

    /// How far a round still has to go from the module it stopped at.
    pub closed spec fn round_left(&self, at: Option<ModuleState>) -> int {
        round_left_of(self.discovery@.len(), at)
    }

    /// A send's round from the module after the one it stopped at: each
    /// module in turn takes the message; the first error ends the round
    /// where it stands and is returned, to resume after the last module
    /// that took it; once the last module took it the round starts over
    /// next time and the last module's result (`last` before any) is
    /// returned.
    pub closed spec fn send_from(&self, message: IUberMessage, last: Result<Option<()>, UberError>,
        after: UberModule<D>, r: Result<Option<()>, UberError>) -> bool
        decreases self.round_left(self.sink_state()),
    {
        proof {
            assert(self.discovery@.len() == self.discovery.len());
            lemma_next_state_closer(self.extended is Some, self.discovery@.len(), self.last_sink_state);
        }
        match spec_next_state(self.extended is Some, self.discovery@.len(), self.last_sink_state) {
            None => after == (UberModule { last_sink_state: None, ..*self }) && r == last,
            Some(st) => exists|mid: UberModule<D>, r1: Result<Option<()>, UberError>|
                #[trigger] self.delivered(st, message, mid, r1) && {
                    if r1 is Err {
                        after == mid && r == r1
                    } else {
                        mid.discovery@.len() == self.discovery@.len()
                            && mid.extended is Some == self.extended is Some
                            && (UberModule { last_sink_state: Some(st), ..mid }).send_from(message, r1, after, r)
                    }
                },
        }
    }

    /// A poll's round from the module after the one it stopped at: each
    /// module in turn is asked for a message; the first message or error
    /// ends the round where it stands and is returned, the same module to
    /// be asked first next time; once no module had anything the round
    /// starts over next time and nothing is returned.
    pub closed spec fn poll_from(&self, after: UberModule<D>, r: Result<Option<OUberMessage>, UberError>) -> bool
        decreases self.round_left(self.stream_state()),
    {
        proof {
            assert(self.discovery@.len() == self.discovery.len());
            lemma_next_state_closer(self.extended is Some, self.discovery@.len(), self.last_stream_state);
        }
        match spec_next_state(self.extended is Some, self.discovery@.len(), self.last_stream_state) {
            None => after == (UberModule { last_stream_state: None, ..*self }) && r == Ok::<Option<OUberMessage>, UberError>(None),
            Some(st) => exists|mid: UberModule<D>, r1: Result<Option<OUberMessage>, UberError>|
                #[trigger] self.took_from(st, mid, r1) && {
                    if r1 matches Ok(None) {
                        mid.discovery@.len() == self.discovery@.len()
                            && mid.extended is Some == self.extended is Some
                            && (UberModule { last_stream_state: Some(st), ..mid }).poll_from(after, r)
                    } else {
                        after == mid && r == r1
                    }
                },
        }
    }

    /// The module with `st` recorded as where a send stopped.
    pub closed spec fn with_sink_state(&self, st: Option<ModuleState>) -> UberModule<D> {
        UberModule { last_sink_state: st, ..*self }
    }

    /// The module with `st` recorded as where a poll stopped.
    pub closed spec fn with_stream_state(&self, st: Option<ModuleState>) -> UberModule<D> {
        UberModule { last_stream_state: st, ..*self }
    }

    /// Recording where a round stopped changes nothing else.
    pub proof fn lemma_with_states(&self, st: Option<ModuleState>)
        ensures
            self.with_sink_state(st).sink_state() == st,
            self.with_sink_state(st).stream_state() == self.stream_state(),
            self.with_sink_state(st).extended_module() == self.extended_module(),
            self.with_sink_state(st).discovery_modules() == self.discovery_modules(),
            self.with_sink_state(st).has_extended() == self.has_extended(),
            self.with_sink_state(st).discovery_count() == self.discovery_count(),
            self.with_stream_state(st).stream_state() == st,
            self.with_stream_state(st).sink_state() == self.sink_state(),
            self.with_stream_state(st).extended_module() == self.extended_module(),
            self.with_stream_state(st).discovery_modules() == self.discovery_modules(),
            self.with_stream_state(st).has_extended() == self.has_extended(),
            self.with_stream_state(st).discovery_count() == self.discovery_count(),
    {
    }

    /// What delivering a message to one module does, over what callers see:
    /// nothing but that module changes; the extended module processes
    /// control and extended messages and answers `Ok(None)`; a discovery
    /// module takes the matching item and its result is returned; a module
    /// the message is not for is passed over with `Ok(None)`.
    pub proof fn lemma_delivered(&self, state: ModuleState, message: IUberMessage, after: UberModule<D>,
        r: Result<Option<()>, UberError>)
        requires
            self.delivered(state, message, after, r),
        ensures
            after.wf(),
            after.discovery_count() == self.discovery_count(),
            after.has_extended() == self.has_extended(),
            after.sink_state() == self.sink_state(),
            after.stream_state() == self.stream_state(),
            state is Extended ==> r == Ok::<Option<()>, UberError>(None),
            match (state, message) {
                (ModuleState::Extended, IUberMessage::Control(c)) => match self.extended_module() {
                    Some(e) => after.extended_module() matches Some(e2)
                        && processed(e, e2, IExtendedMessage::Control(c), self.discovery_modules(), after.discovery_modules()),
                    None => after.extended_module() is None && after.discovery_modules() == self.discovery_modules(),
                },
                (ModuleState::Extended, IUberMessage::Extended(m)) => match self.extended_module() {
                    Some(e) => after.extended_module() matches Some(e2)
                        && processed(e, e2, m, self.discovery_modules(), after.discovery_modules()),
                    None => after.extended_module() is None && after.discovery_modules() == self.discovery_modules(),
                },
                (ModuleState::Discovery(_), IUberMessage::Extended(_)) | (ModuleState::Extended, IUberMessage::Discovery(_)) =>
                    r == Ok::<Option<()>, UberError>(None)
                    && after.extended_module() == self.extended_module()
                    && after.discovery_modules() == self.discovery_modules(),
                (ModuleState::Discovery(i), _) =>
                    after.extended_module() == self.extended_module()
                    && (forall|j: int| 0 <= j < self.discovery_count() && j != i ==>
                        #[trigger] after.discovery_modules()[j] == self.discovery_modules()[j])
                    && exists|item: IDiscoveryMessage, res: Result<Option<IDiscoveryMessage>, DiscoveryError>|
                        item_for(message, item)
                        && #[trigger] self.discovery_modules()[i as int].took(item, res, after.discovery_modules()[i as int])
                        && r == sent_result(res)
            },
    {
        if let ModuleState::Discovery(i) = state {
            if !(message is Extended) {
                let (item, res) = choose|item: IDiscoveryMessage, res: Result<Option<IDiscoveryMessage>, DiscoveryError>|
                    item_for(message, item) && #[trigger] self.discovery@[i as int].took(item, res, after.discovery@[i as int])
                    && r == sent_result(res);
                assert(self.discovery_modules()[i as int].took(item, res, after.discovery_modules()[i as int]));
            }
        }
    }

    /// What asking one module for a message does, over what callers see:
    /// nothing but that module changes; the extended module hands out the
    /// first queued message, if any; a discovery module's answer is
    /// returned.
    pub proof fn lemma_took_from(&self, state: ModuleState, after: UberModule<D>, r: Result<Option<OUberMessage>, UberError>)
        requires
            self.took_from(state, after, r),
        ensures
            after.wf(),
            after.discovery_count() == self.discovery_count(),
            after.has_extended() == self.has_extended(),
            after.sink_state() == self.sink_state(),
            after.stream_state() == self.stream_state(),
            state is Extended ==> r is Ok,
            match state {
                ModuleState::Extended => after.discovery_modules() == self.discovery_modules() && match self.extended_module() {
                    None => r == Ok::<Option<OUberMessage>, UberError>(None) && after.extended_module() is None,
                    Some(e) => after.extended_module() matches Some(e2)
                        && e2.spec_builder() == e.spec_builder()
                        && (forall|info: PeerInfo| #[trigger] e2.entry(info) == e.entry(info))
                        && (e.queue().len() == 0 ==> r == Ok::<Option<OUberMessage>, UberError>(None) && e2.queue() == e.queue())
                        && (e.queue().len() > 0 ==> r == Ok::<Option<OUberMessage>, UberError>(Some(OUberMessage::Extended(e.queue()[0])))
                            && e2.queue() == e.queue().drop_first()),
                },
                ModuleState::Discovery(i) => after.extended_module() == self.extended_module()
                    && (forall|j: int| 0 <= j < self.discovery_count() && j != i ==>
                        #[trigger] after.discovery_modules()[j] == self.discovery_modules()[j])
                    && exists|res: Option<Result<ODiscoveryMessage, DiscoveryError>>|
                        #[trigger] self.discovery_modules()[i as int].gave(res, after.discovery_modules()[i as int])
                        && r == polled_result(res)
            },
    {
        if let ModuleState::Discovery(i) = state {
            let res = choose|res: Option<Result<ODiscoveryMessage, DiscoveryError>>|
                #[trigger] self.discovery@[i as int].gave(res, after.discovery@[i as int]) && r == polled_result(res);
            assert(self.discovery_modules()[i as int].gave(res, after.discovery_modules()[i as int]));
        }
    }

    /// One step of a send's round, over what callers see: with no module
    /// left the round starts over and `last` is returned; else the next
    /// module takes the message, an error ends the round there, and
    /// anything else goes on from that module.
    pub proof fn lemma_send_step(&self, message: IUberMessage, last: Result<Option<()>, UberError>,
        after: UberModule<D>, r: Result<Option<()>, UberError>)
        requires
            self.send_from(message, last, after, r),
        ensures
            match spec_next_state(self.has_extended(), self.discovery_count(), self.sink_state()) {
                None => after == self.with_sink_state(None) && r == last,
                Some(st) => exists|mid: UberModule<D>, r1: Result<Option<()>, UberError>|
                    #[trigger] self.delivered(st, message, mid, r1) && {
                        if r1 is Err {
                            after == mid && r == r1
                        } else {
                            mid.with_sink_state(Some(st)).send_from(message, r1, after, r)
                        }
                    },
            },
    {
    }

    /// One step of a poll's round, over what callers see: with no module
    /// left the round starts over and nothing is returned; else the next
    /// module is asked, a message or an error ends the round there, and
    /// nothing goes on from that module.
    pub proof fn lemma_poll_step(&self, after: UberModule<D>, r: Result<Option<OUberMessage>, UberError>)
        requires
            self.poll_from(after, r),
        ensures
            match spec_next_state(self.has_extended(), self.discovery_count(), self.stream_state()) {
                None => after == self.with_stream_state(None) && r == Ok::<Option<OUberMessage>, UberError>(None),
                Some(st) => exists|mid: UberModule<D>, r1: Result<Option<OUberMessage>, UberError>|
                    #[trigger] self.took_from(st, mid, r1) && {
                        if r1 matches Ok(None) {
                            mid.with_stream_state(Some(st)).poll_from(after, r)
                        } else {
                            after == mid && r == r1
                        }
                    },
            },
    {
    }

    /// Delivers the message to one module.
    fn deliver(&mut self, state: ModuleState, message: &IUberMessage) -> (r: Result<Option<()>, UberError>)
        requires
            old(self).wf(),
            state matches ModuleState::Discovery(i) ==> i < old(self).discovery@.len(),
        ensures
            old(self).delivered(state, *message, *final(self), r),
    {
        match (state, message) {
            (ModuleState::Extended, IUberMessage::Control(control)) => {
                match &mut self.extended {
                    Some(ext) => {
                        ext.process_message(IExtendedMessage::Control(*control), &mut self.discovery);
                    },
                    None => {},
                }
                Ok(None)
            },
            (ModuleState::Extended, IUberMessage::Extended(extended)) => {
                match &mut self.extended {
                    Some(ext) => {
                        ext.process_message(*extended, &mut self.discovery);
                    },
                    None => {},
                }
                Ok(None)
            },
            (ModuleState::Discovery(index), IUberMessage::Control(control)) => {
                let ghost d0 = self.discovery@;
                let mut m = self.discovery.remove(index);
                let res = m.send(IDiscoveryMessage::Control(*control));
                self.discovery.insert(index, m);
                proof {
                    assert(d0[index as int].took(IDiscoveryMessage::Control(*control), res, self.discovery@[index as int]));
                }
                match res {
                    Ok(Some(_)) => Ok(Some(())),
                    Ok(None) => Ok(None),
                    Err(e) => Err(UberError::Discovery(e)),
                }
            },
            (ModuleState::Discovery(index), IUberMessage::Discovery(discovery)) => {
                let ghost d0 = self.discovery@;
                let item = discovery.copy_item();
                let mut m = self.discovery.remove(index);
                let res = m.send(item);
                self.discovery.insert(index, m);
                proof {
                    assert(d0[index as int].took(item, res, self.discovery@[index as int]));
                }
                match res {
                    Ok(Some(_)) => Ok(Some(())),
                    Ok(None) => Ok(None),
                    Err(e) => Err(UberError::Discovery(e)),
                }
            },
            _ => Ok(None),
        }
    }

    /// Passes the message to each module in turn, resuming after the module
    /// where an earlier send stopped. A module's error stops the round and
    /// is returned, the round resuming there next time; once every module
    /// took the message the round is over and the last result returned.
    /// Without discovery modules nothing can fail and nothing is returned.
    pub fn send(&mut self, item: IUberMessage) -> (r: Result<Option<()>, UberError>)
        requires
            old(self).wf(),
        ensures
            final(self).wf(),
            final(self).has_extended() == old(self).has_extended(),
            final(self).discovery_count() == old(self).discovery_count(),
            final(self).stream_state() == old(self).stream_state(),
            r is Ok ==> final(self).sink_state() is None,
            old(self).discovery_count() == 0 ==> r == Ok::<Option<()>, UberError>(None),
            old(self).send_from(item, Ok(None), *final(self), r),
    {
        let ghost start = *self;
        let mut result: Result<Option<()>, UberError> = Ok(None);
        loop
            invariant_except_break
                self.wf(),
                self.extended is Some == old(self).extended is Some,
                self.discovery@.len() == old(self).discovery@.len(),
                self.last_stream_state == old(self).last_stream_state,
                self.discovery@.len() == 0 ==> result == Ok::<Option<()>, UberError>(None),
                start == *old(self),
                forall|a: UberModule<D>, rr: Result<Option<()>, UberError>|
                    #[trigger] self.send_from(item, result, a, rr) ==> start.send_from(item, Ok(None), a, rr),
            ensures
                self.wf(),
                self.extended is Some == old(self).extended is Some,
                self.discovery@.len() == old(self).discovery@.len(),
                self.last_stream_state == old(self).last_stream_state,
                result is Ok ==> self.last_sink_state is None,
                self.discovery@.len() == 0 ==> result == Ok::<Option<()>, UberError>(None),
                start.send_from(item, Ok(None), *self, result),
            decreases
                match self.last_sink_state {
                    None => (self.discovery@.len() + 2) as int,
                    Some(ModuleState::Extended) => (self.discovery@.len() + 1) as int,
                    Some(ModuleState::Discovery(i)) => (self.discovery@.len() - i) as int,
                },
        {
            let ghost pre = *self;
            let ghost prev_result = result;
            let next = next_state(self.extended.is_some(), self.discovery.len(), self.last_sink_state);
            match next {
                None => {
                    self.last_sink_state = None;
                    proof {
                        assert(*self == (UberModule { last_sink_state: None, ..pre }));
                        assert(pre.send_from(item, prev_result, *self, result));
                    }
                    break;
                },
                Some(state) => {
                    result = self.deliver(state, &item);
                    let ghost mid = *self;
                    if result.is_ok() {
                        self.last_sink_state = Some(state);
                        proof {
                            assert(*self == (UberModule { last_sink_state: Some(state), ..mid }));
                            assert forall|a: UberModule<D>, rr: Result<Option<()>, UberError>|
                                #[trigger] self.send_from(item, result, a, rr) implies start.send_from(item, Ok(None), a, rr) by {
                                assert(pre.delivered(state, item, mid, result));
                                assert(pre.send_from(item, prev_result, a, rr));
                            }
                        }
                    } else {
                        proof {
                            assert(pre.delivered(state, item, mid, result));
                            assert(pre.send_from(item, prev_result, *self, result));
                        }
                        break;
                    }
                },
            }
        }
        result
    }

    /// Takes a message from one module.
    fn take_from(&mut self, state: ModuleState) -> (r: Result<Option<OUberMessage>, UberError>)
        requires
            old(self).wf(),
            state matches ModuleState::Discovery(i) ==> i < old(self).discovery@.len(),
        ensures
            old(self).took_from(state, *final(self), r),
    {
        match state {
            ModuleState::Extended => {
                match &mut self.extended {
                    Some(ext) => match ext.poll() {
                        Some(m) => Ok(Some(OUberMessage::Extended(m))),
                        None => Ok(None),
                    },
                    None => Ok(None),
                }
            },
            ModuleState::Discovery(index) => {
                let ghost d0 = self.discovery@;
                let mut m = self.discovery.remove(index);
                let res = m.poll();
                self.discovery.insert(index, m);
                proof {
                    assert(d0[index as int].gave(res, self.discovery@[index as int]));
                }
                match res {
                    None => Ok(None),
                    Some(Ok(msg)) => Ok(Some(OUberMessage::Discovery(msg))),
                    Some(Err(e)) => Err(UberError::Discovery(e)),
                }
            },
        }
    }

    /// Asks each module in turn for a message, resuming at the module that
    /// gave the last one. The first message or error is returned and the
    /// next poll asks that module again; once no module had anything the
    /// round is over and nothing is returned.
    pub fn poll(&mut self) -> (r: Result<Option<OUberMessage>, UberError>)
        requires
            old(self).wf(),
        ensures
            final(self).wf(),
            final(self).has_extended() == old(self).has_extended(),
            final(self).discovery_count() == old(self).discovery_count(),
            final(self).sink_state() == old(self).sink_state(),
            r matches Ok(None) ==> final(self).stream_state() is None,
            old(self).discovery_count() == 0 ==> r is Ok,
            old(self).poll_from(*final(self), r),
    {
        let ghost start = *self;
        loop
            invariant
                self.wf(),
                self.extended is Some == old(self).extended is Some,
                self.discovery@.len() == old(self).discovery@.len(),
                self.last_sink_state == old(self).last_sink_state,
                start == *old(self),
                forall|a: UberModule<D>, rr: Result<Option<OUberMessage>, UberError>|
                    #[trigger] self.poll_from(a, rr) ==> start.poll_from(a, rr),
            decreases
                match self.last_stream_state {
                    None => (self.discovery@.len() + 2) as int,
                    Some(ModuleState::Extended) => (self.discovery@.len() + 1) as int,
                    Some(ModuleState::Discovery(i)) => (self.discovery@.len() - i) as int,
                },
        {
            let ghost pre = *self;
            let next = next_state(self.extended.is_some(), self.discovery.len(), self.last_stream_state);
            match next {
                None => {
                    self.last_stream_state = None;
                    proof {
                        assert(*self == (UberModule { last_stream_state: None, ..pre }));
                        assert(pre.poll_from(*self, Ok::<Option<OUberMessage>, UberError>(None)));
                    }
                    return Ok(None);
                },
                Some(state) => {
                    let result = self.take_from(state);
                    let ghost mid = *self;
                    match result {
                        Ok(None) => {
                            self.last_stream_state = Some(state);
                            proof {
                                assert(*self == (UberModule { last_stream_state: Some(state), ..mid }));
                                assert forall|a: UberModule<D>, rr: Result<Option<OUberMessage>, UberError>|
                                    #[trigger] self.poll_from(a, rr) implies start.poll_from(a, rr) by {
                                    assert(pre.took_from(state, mid, result));
                                    assert(pre.poll_from(a, rr));
                                }
                            }
                        },
                        _ => {
                            proof {
                                assert(pre.took_from(state, mid, result));
                                assert(pre.poll_from(*self, result));
                            }
                            return result;
                        },
                    }
                },
            }
        }
    }
}

} // verus!
