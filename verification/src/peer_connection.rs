use vstd::prelude::*;

use crate::bitfield::{bit_at, bitfield_from_pieces, bitfield_len, pieces_from_bitfield};
use crate::download::{Piece, IPC, have_pieces, incomplete_of};
use crate::sha::{InfoHash, PeerId, hash_eq};
use crate::wire::{Message, MessageView, BLOCK_SIZE};

verus! {

/// Most requests we keep outstanding with one peer.
pub const MAX_CONCURRENT_REQUESTS: u32 = 10;

/// Blocks queued per batch when a peer's bitfield arrives.
pub const REQUEST_BATCH: u8 = 8;

// ---------------------------------------------------------------------------
// Handshake.

/// The protocol string of the handshake.
pub open spec fn protocol_name() -> Seq<u8> {
    seq![0x42u8, 0x69, 0x74, 0x54, 0x6f, 0x72, 0x72, 0x65, 0x6e, 0x74, 0x20,
        0x70, 0x72, 0x6f, 0x74, 0x6f, 0x63, 0x6f, 0x6c]
}

/// The handshake we send: the length of the protocol string, the string,
/// eight reserved zero bytes, the info hash and our peer id.
pub open spec fn handshake_spec(info_hash: Seq<u8>, peer_id: Seq<u8>) -> Seq<u8> {
    seq![19u8] + protocol_name() + Seq::new(8, |i: int| 0u8) + info_hash + peer_id
}

/// The handshake is 68 bytes for a 20 byte info hash and peer id: the
/// byte 19, the 19 bytes of `BitTorrent protocol`, eight zero bytes, the
/// info hash at offset 28 and the peer id at offset 48.
pub proof fn lemma_handshake_layout(info_hash: Seq<u8>, peer_id: Seq<u8>)
    requires
        info_hash.len() == 20,
        peer_id.len() == 20,
    ensures
        ({
            let h = handshake_spec(info_hash, peer_id);
            &&& h.len() == 68
            &&& h[0] == 19
            &&& h.subrange(1, 20) == seq![0x42u8, 0x69, 0x74, 0x54, 0x6f, 0x72, 0x72, 0x65, 0x6e, 0x74, 0x20,
                    0x70, 0x72, 0x6f, 0x74, 0x6f, 0x63, 0x6f, 0x6c]
            &&& forall|i: int| 20 <= i < 28 ==> h[i] == 0
            &&& h.subrange(28, 48) == info_hash
            &&& h.subrange(48, 68) == peer_id
        }),
{
    let h = handshake_spec(info_hash, peer_id);
    assert(h.subrange(1, 20) =~= protocol_name());
    assert(h.subrange(28, 48) =~= info_hash);
    assert(h.subrange(48, 68) =~= peer_id);
}

/// Builds our handshake.
pub fn handshake_bytes(info_hash: &InfoHash, peer_id: &[u8]) -> (r: Vec<u8>)
    ensures
        r@ == handshake_spec(info_hash@, peer_id@),
        peer_id@.len() == 20 ==> r@.len() == 68 && r@[0] == 19 && r@.subrange(28, 48) == info_hash@
            && r@.subrange(48, 68) == peer_id@,
{
    proof {
        if peer_id@.len() == 20 {
            lemma_handshake_layout(info_hash@, peer_id@);
        }
    }
    let mut message: Vec<u8> = vec![19u8, 0x42, 0x69, 0x74, 0x54, 0x6f, 0x72, 0x72, 0x65, 0x6e, 0x74, 0x20,
        0x70, 0x72, 0x6f, 0x74, 0x6f, 0x63, 0x6f, 0x6c];
    assert(message@ =~= seq![19u8] + protocol_name());
    let mut i: usize = 0;
    while i < 8
        invariant
            i <= 8,
            message@ == seq![19u8] + protocol_name() + Seq::new(i as nat, |k: int| 0u8),
        decreases 8 - i,
    {
        message.push(0);
        i = i + 1;
        assert(message@ =~= seq![19u8] + protocol_name() + Seq::new(i as nat, |k: int| 0u8));
    }
    append(&mut message, info_hash.as_slice());
    append(&mut message, peer_id);
    message
}

fn append(v: &mut Vec<u8>, w: &[u8])
    ensures
        final(v)@ == old(v)@ + w@,
{
    let ghost start = v@;
    let mut i: usize = 0;
    while i < w.len()
        invariant
            i <= w@.len(),
            v@ == start + w@.take(i as int),
        decreases w@.len() - i,
    {
        v.push(w[i]);
        i = i + 1;
        assert(v@ =~= start + w@.take(i as int));
    }
    assert(w@.take(w@.len() as int) =~= w@);
}

/// Checks the info hash and peer id of a handshake we received: the torrent
/// must be ours and the peer must not be us.
pub fn check_handshake(info_hash: &[u8], peer_id: &[u8], our_info_hash: &InfoHash, our_peer_id: &[u8]) -> (r: Result<(), Error>)
    ensures
        info_hash@ != our_info_hash@ ==> r matches Err(Error::InvalidInfoHash),
        info_hash@ == our_info_hash@ && peer_id@ == our_peer_id@ ==> r matches Err(Error::ConnectingToSelf),
        info_hash@ == our_info_hash@ && peer_id@ != our_peer_id@ ==> r is Ok,
{
    if !bytes_eq(info_hash, our_info_hash.as_slice()) {
        return Err(Error::InvalidInfoHash);
    }
    if bytes_eq(peer_id, our_peer_id) {
        return Err(Error::ConnectingToSelf);
    }
    Ok(())
}

fn bytes_eq(a: &[u8], b: &[u8]) -> (r: bool)
    ensures
        r == (a@ == b@),
{
    if a.len() != b.len() {
        return false;
    }
    let mut i: usize = 0;
    while i < a.len()
        invariant
            a@.len() == b@.len(),
            i <= a@.len(),
            forall|j: int| 0 <= j < i ==> a@[j] == b@[j],
        decreases a@.len() - i,
    {
        if a[i] != b[i] {
            return false;
        }
        i = i + 1;
    }
    assert(a@ =~= b@);
    true
}

// ---------------------------------------------------------------------------
// Errors.

/// Why a peer connection ended.
#[derive(Debug)]
pub enum Error {
    InvalidInfoHash,
    ConnectingToSelf,
    DownloadError(crate::download::Error),
    IoError(std::io::Error),
    SocketClosed,
    UnknownRequestType(Message),
    /// A channel to or from the connection closed.
    ChannelClosed,
}

// ---------------------------------------------------------------------------
// Request queues.

/// A block request: which block, where in the piece and how long.
#[derive(Debug, Clone, Copy, PartialEq, Eq, Structural)]
pub struct RequestMetadata {
    pub piece_index: u32,
    pub block_index: u32,
    pub offset: u32,
    pub block_length: u32,
}

/// The request names the block.
pub open spec fn names(r: RequestMetadata, piece_index: u32, block_index: u32) -> bool {
    r.piece_index == piece_index && r.block_index == block_index
}

/// No block is requested twice.
pub open spec fn distinct_blocks(s: Seq<RequestMetadata>) -> bool {
    forall|i: int, j: int| 0 <= i < j < s.len() ==>
        !names(#[trigger] s[i], (#[trigger] s[j]).piece_index, s[j].block_index)
}

/// Position of the request for a block.
pub open spec fn position_of(s: Seq<RequestMetadata>, piece_index: u32, block_index: u32) -> Option<int> {
    if exists|i: int| 0 <= i < s.len() && names(#[trigger] s[i], piece_index, block_index) {
        Some(choose|i: int| 0 <= i < s.len() && names(#[trigger] s[i], piece_index, block_index))
    } else {
        None
    }
}

/// Requests in the order they were made, at most one per block.
#[derive(Debug)]
pub struct RequestQueue {
    requests: Vec<RequestMetadata>,
}

impl View for RequestQueue {
    type V = Seq<RequestMetadata>;

    closed spec fn view(&self) -> Seq<RequestMetadata> {
        self.requests@
    }
}

impl RequestQueue {
    pub fn new() -> (r: RequestQueue)
        ensures
            r@ == Seq::<RequestMetadata>::empty(),
    {
        RequestQueue { requests: Vec::new() }
    }

    fn position(&self, piece_index: u32, block_index: u32) -> (r: Option<usize>)
        requires
            distinct_blocks(self@),
        ensures
            match r {
                Some(i) => i < self@.len() && names(self@[i as int], piece_index, block_index),
                None => forall|i: int| 0 <= i < self@.len() ==> !names(#[trigger] self@[i], piece_index, block_index),
            },
    {
        let mut i: usize = 0;
        while i < self.requests.len()
            invariant
                i <= self.requests@.len(),
                forall|j: int| 0 <= j < i ==> !names(#[trigger] self.requests@[j], piece_index, block_index),
            decreases self.requests@.len() - i,
        {
            let r = self.requests[i];
            if r.piece_index == piece_index && r.block_index == block_index {
                return Some(i);
            }
            i = i + 1;
        }
        None
    }

    /// The block is requested.
    pub fn has(&self, piece_index: u32, block_index: u32) -> (r: bool)
        requires
            distinct_blocks(self@),
        ensures
            r == exists|i: int| 0 <= i < self@.len() && names(#[trigger] self@[i], piece_index, block_index),
    {
        match self.position(piece_index, block_index) {
            Some(_) => true,
            None => false,
        }
    }

    /// Adds a request for the block unless there is one already.
    pub fn add(&mut self, piece_index: u32, block_index: u32, offset: u32, block_length: u32) -> (r: bool)
        requires
            distinct_blocks(old(self)@),
        ensures
            distinct_blocks(final(self)@),
            r == !exists|i: int| 0 <= i < old(self)@.len() && names(#[trigger] old(self)@[i], piece_index, block_index),
            r ==> final(self)@ == old(self)@.push(RequestMetadata { piece_index, block_index, offset, block_length }),
            !r ==> final(self)@ == old(self)@,
    {
        if self.has(piece_index, block_index) {
            false
        } else {
            self.requests.push(RequestMetadata { piece_index, block_index, offset, block_length });
            true
        }
    }

    /// Takes the oldest request.
    pub fn pop(&mut self) -> (r: Option<RequestMetadata>)
        requires
            distinct_blocks(old(self)@),
        ensures
            distinct_blocks(final(self)@),
            old(self)@.len() == 0 ==> r is None && final(self)@ == old(self)@,
            old(self)@.len() > 0 ==> r == Some(old(self)@[0]) && final(self)@ == old(self)@.drop_first(),
    {
        if self.requests.len() > 0 {
            Some(self.requests.remove(0))
        } else {
            None
        }
    }

    /// Removes the request for the block, if any, and returns it.
    pub fn remove(&mut self, piece_index: u32, block_index: u32) -> (r: Option<RequestMetadata>)
        requires
            distinct_blocks(old(self)@),
        ensures
            distinct_blocks(final(self)@),
            match r {
                Some(q) => exists|i: int| 0 <= i < old(self)@.len() && old(self)@[i] == q
                    && names(q, piece_index, block_index) && final(self)@ == old(self)@.remove(i),
                None => final(self)@ == old(self)@
                    && forall|i: int| 0 <= i < old(self)@.len() ==> !names(#[trigger] old(self)@[i], piece_index, block_index),
            },
            forall|i: int| 0 <= i < final(self)@.len() ==> !names(#[trigger] final(self)@[i], piece_index, block_index),
    {
        match self.position(piece_index, block_index) {
            Some(i) => {
                let r = self.requests.remove(i);
                proof {
                    let s = old(self)@;
                    assert forall|j: int| 0 <= j < self@.len() implies !names(#[trigger] self@[j], piece_index, block_index) by {
                        if j < i {
                            assert(self@[j] == s[j]);
                        } else {
                            assert(self@[j] == s[j + 1]);
                        }
                    }
                }
                Some(r)
            },
            None => None,
        }
    }

    pub fn len(&self) -> (r: usize)
        ensures
            r == self@.len(),
    {
        self.requests.len()
    }
}

// ---------------------------------------------------------------------------
// Peer state.

/// What is known of one side of the connection.
#[derive(Debug)]
pub struct PeerMetadata {
    pub has_pieces: Vec<bool>,
    pub is_choked: bool,
    pub is_interested: bool,
    pub requests: RequestQueue,
}

impl PeerMetadata {
    /// A side that has the given pieces, starts choked and not interested,
    /// with no request.
    pub fn new(has_pieces: Vec<bool>) -> (r: PeerMetadata)
        ensures
            r.has_pieces@ == has_pieces@,
            r.is_choked,
            !r.is_interested,
            r.requests@.len() == 0,
    {
        PeerMetadata { has_pieces, is_choked: true, is_interested: false, requests: RequestQueue::new() }
    }
}

/// Blocks to request, each as (piece, block, length).
pub open spec fn distinct_to_request(s: Seq<(u32, u32, u32)>) -> bool {
    forall|i: int, j: int| 0 <= i < j < s.len() ==>
        !((#[trigger] s[i]).0 == (#[trigger] s[j]).0 && s[i].1 == s[j].1)
}

/// Some entry queues the block.
pub open spec fn has_key(s: Seq<(u32, u32, u32)>, piece_index: u32, block_index: u32) -> bool {
    exists|i: int| 0 <= i < s.len() && (#[trigger] s[i]).0 == piece_index && s[i].1 == block_index
}

/// Something the connection asks its surroundings to do.
#[derive(Debug)]
pub enum Effect {
    /// Send a message to the peer.
    Send(Message),
    /// Store a received block in the download.
    Store { piece_index: u32, block_index: u32, data: Vec<u8> },
    /// Read the requested block from the download and send it as a piece.
    Upload(RequestMetadata),
    /// Record that this connection was closed.
    Close,
}

/// The decisions of a connection with one peer: what each message and
/// event changes, and what to send in reply.
#[derive(Debug)]
pub struct PeerConnection {
    pub halt: bool,
    pub me: PeerMetadata,
    pub them: PeerMetadata,
    pub upload_in_progress: bool,
    pub to_request: Vec<(u32, u32, u32)>,
    pub request_size: u8,
    pub cat_num: usize,
    pub cat_status: bool,
    pub cat_num_list: Vec<usize>,
    pub un_cat_num_list: Vec<usize>,
    pub download_size: usize,
}

impl PeerConnection {
    /// No request is held twice.
    pub open spec fn wf(&self) -> bool {
        &&& distinct_blocks(self.me.requests@)
        &&& distinct_blocks(self.them.requests@)
        &&& distinct_to_request(self.to_request@)
        &&& self.me.requests@.len() <= MAX_CONCURRENT_REQUESTS
        &&& forall|i: int| 0 <= i < self.to_request@.len() ==> (#[trigger] self.to_request@[i]).1 * BLOCK_SIZE <= u32::MAX
    }

    /// Everything but the queued blocks is the same.
    pub open spec fn same_but_queue(&self, other: &PeerConnection) -> bool {
        &&& self.halt == other.halt
        &&& self.me == other.me
        &&& self.them == other.them
        &&& self.upload_in_progress == other.upload_in_progress
        &&& self.request_size == other.request_size
        &&& self.cat_num == other.cat_num
        &&& self.cat_status == other.cat_status
        &&& self.cat_num_list == other.cat_num_list
        &&& self.un_cat_num_list == other.un_cat_num_list
        &&& self.download_size == other.download_size
    }

    /// A connection to a peer about which nothing is known yet: we have the
    /// given pieces, of which `cat_num` are split so far.
    pub fn new(cat_num: usize, have: Vec<bool>) -> (r: PeerConnection)
        ensures
            r.wf(),
            !r.halt,
            r.me.has_pieces@ == have@,
            r.them.has_pieces@.len() == have@.len(),
            forall|i: int| 0 <= i < have@.len() ==> !r.them.has_pieces@[i],
            r.me.is_choked && r.them.is_choked,
            !r.me.is_interested && !r.them.is_interested,
            r.me.requests@.len() == 0 && r.them.requests@.len() == 0,
            r.to_request@.len() == 0,
            r.cat_num == cat_num,
            !r.cat_status,
            r.request_size == REQUEST_BATCH,
            !r.upload_in_progress,
    {
        let n = have.len();
        let mut theirs: Vec<bool> = Vec::new();
        let mut i: usize = 0;
        while i < n
            invariant
                i <= n,
                theirs@.len() == i,
                forall|j: int| 0 <= j < i ==> !theirs@[j],
            decreases n - i,
        {
            theirs.push(false);
            i = i + 1;
        }
        PeerConnection {
            halt: false,
            me: PeerMetadata::new(have),
            them: PeerMetadata::new(theirs),
            upload_in_progress: false,
            to_request: Vec::new(),
            request_size: REQUEST_BATCH,
            cat_num,
            cat_status: false,
            cat_num_list: Vec::new(),
            un_cat_num_list: Vec::new(),
            download_size: 0,
        }
    }

    /// The bitfield message telling the peer which pieces we have.
    pub fn bitfield_message(&self) -> (r: Message)
        requires
            self.me.has_pieces@.len() + 7 <= usize::MAX,
        ensures
            r matches Message::Bitfield(bytes) && bytes@.len() == bitfield_len(self.me.has_pieces@.len() as int)
                && forall|i: int| 0 <= i < self.me.has_pieces@.len() ==> #[trigger] bit_at(bytes@, i) == self.me.has_pieces@[i],
    {
        Message::Bitfield(bitfield_from_pieces(self.me.has_pieces.as_slice()))
    }

    fn has_pending(&self, piece_index: u32, block_index: u32) -> (r: Option<usize>)
        ensures
            match r {
                Some(i) => i < self.to_request@.len() && self.to_request@[i as int].0 == piece_index
                    && self.to_request@[i as int].1 == block_index,
                None => forall|i: int| 0 <= i < self.to_request@.len() ==>
                    !((#[trigger] self.to_request@[i]).0 == piece_index && self.to_request@[i].1 == block_index),
            },
    {
        let mut i: usize = 0;
        while i < self.to_request.len()
            invariant
                i <= self.to_request@.len(),
                forall|j: int| 0 <= j < i ==>
                    !((#[trigger] self.to_request@[j]).0 == piece_index && self.to_request@[j].1 == block_index),
            decreases self.to_request@.len() - i,
        {
            let (p, b, _) = self.to_request[i];
            if p == piece_index && b == block_index {
                return Some(i);
            }
            i = i + 1;
        }
        None
    }

    /// Drops the block from the blocks to request.
    fn remove_pending(&mut self, piece_index: u32, block_index: u32)
        requires
            old(self).wf(),
        ensures
            final(self).wf(),
            final(self).same_but_queue(old(self)),
            forall|i: int| 0 <= i < final(self).to_request@.len() ==>
                !((#[trigger] final(self).to_request@[i]).0 == piece_index && final(self).to_request@[i].1 == block_index),
            forall|i: int| 0 <= i < final(self).to_request@.len() ==> old(self).to_request@.contains(#[trigger] final(self).to_request@[i]),
            forall|i: int| 0 <= i < old(self).to_request@.len() && !((#[trigger] old(self).to_request@[i]).0 == piece_index
                && old(self).to_request@[i].1 == block_index) ==> final(self).to_request@.contains(old(self).to_request@[i]),
    {
        match self.has_pending(piece_index, block_index) {
            Some(i) => {
                let ghost s = self.to_request@;
                self.to_request.remove(i);
                proof {
                    let t = self.to_request@;
                    assert forall|a: int| 0 <= a < t.len() implies
                        !((#[trigger] t[a]).0 == piece_index && t[a].1 == block_index) by {
                        if a < i {
                            assert(t[a] == s[a]);
                        } else {
                            assert(t[a] == s[a + 1]);
                        }
                    }
                    assert forall|a: int| 0 <= a < t.len() implies s.contains(#[trigger] t[a]) by {
                        if a < i {
                            assert(t[a] == s[a]);
                        } else {
                            assert(t[a] == s[a + 1]);
                        }
                    }
                    assert forall|a: int| 0 <= a < s.len() && !((#[trigger] s[a]).0 == piece_index && s[a].1 == block_index)
                        implies t.contains(s[a]) by {
                        if a < i {
                            assert(t[a] == s[a]);
                        } else {
                            assert(a != i);
                            assert(t[a - 1] == s[a]);
                        }
                    }
                    assert forall|a: int, b: int| 0 <= a < b < t.len() implies
                        !((#[trigger] t[a]).0 == (#[trigger] t[b]).0 && t[a].1 == t[b].1) by {
                        let a0 = if a < i { a } else { a + 1 };
                        let b0 = if b < i { b } else { b + 1 };
                        assert(t[a] == s[a0] && t[b] == s[b0]);
                    }
                }
            },
            None => {},
        }
    }

    /// Queues the incomplete blocks of a piece that are not requested yet;
    /// returns how many were queued.
    pub fn queue_blocks(&mut self, piece_index: u32, pieces: &Vec<Piece>) -> (r: i32)
        requires
            old(self).wf(),
            piece_index < pieces@.len(),
            pieces@[piece_index as int].blocks@.len() < i32::MAX,
            piece_wf(pieces@[piece_index as int]),
        ensures
            final(self).wf(),
            final(self).same_but_queue(old(self)),
            0 <= r,
            forall|i: int| 0 <= i < old(self).to_request@.len() ==>
                has_key(final(self).to_request@, (#[trigger] old(self).to_request@[i]).0, old(self).to_request@[i].1),
            forall|k: int| 0 <= k < block_list(pieces@[piece_index as int]).len()
                && !requested(old(self).me.requests@, piece_index, (#[trigger] block_list(pieces@[piece_index as int])[k]).0) ==>
                has_key(final(self).to_request@, piece_index, block_list(pieces@[piece_index as int])[k].0),
            forall|i: int| 0 <= i < final(self).to_request@.len() ==> {
                ||| old(self).to_request@.contains(#[trigger] final(self).to_request@[i])
                ||| final(self).to_request@[i].0 == piece_index
                    && block_list(pieces@[piece_index as int]).contains((final(self).to_request@[i].1, final(self).to_request@[i].2))
                    && !requested(old(self).me.requests@, piece_index, final(self).to_request@[i].1)
            },
    {
        let incomplete = pieces[piece_index as usize].incomplete_blocks();
        let ghost blocks = incomplete@;
        assert(blocks == block_list(pieces@[piece_index as int]));
        proof {
            lemma_incomplete_len(pieces@[piece_index as int].blocks@);
            lemma_block_list_fits(pieces@[piece_index as int]);
        }
        let mut num: i32 = 0;
        let mut k: usize = 0;
        let ghost start = self.to_request@;
        while k < incomplete.len()
            invariant
                k <= incomplete@.len(),
                piece_index < pieces@.len(),
                incomplete@.len() <= pieces@[piece_index as int].blocks@.len(),
                forall|j: int| 0 <= j < incomplete@.len() ==> (#[trigger] incomplete@[j]).0 * BLOCK_SIZE <= u32::MAX,
                pieces@[piece_index as int].blocks@.len() < i32::MAX,
                0 <= num <= k,
                self.wf(),
                self.same_but_queue(old(self)),
                start == old(self).to_request@,
                forall|i: int| 0 <= i < start.len() ==> has_key(self.to_request@, (#[trigger] start[i]).0, start[i].1),
                forall|j: int| 0 <= j < k && !requested(self.me.requests@, piece_index, (#[trigger] incomplete@[j]).0) ==>
                    has_key(self.to_request@, piece_index, incomplete@[j].0),
                forall|i: int| 0 <= i < self.to_request@.len() ==> {
                    ||| start.contains(#[trigger] self.to_request@[i])
                    ||| self.to_request@[i].0 == piece_index && incomplete@.contains((self.to_request@[i].1, self.to_request@[i].2))
                        && !requested(self.me.requests@, piece_index, self.to_request@[i].1)
                },
            decreases incomplete@.len() - k,
        {
            let (block_index, block_length) = incomplete[k];
            if !self.me.requests.has(piece_index, block_index) {
                let ghost before = self.to_request@;
                self.remove_pending(piece_index, block_index);
                let ghost mid = self.to_request@;
                self.to_request.push((piece_index, block_index, block_length));
                num = num + 1;
                proof {
                    let t = self.to_request@;
                    assert(t[t.len() - 1] == (piece_index, block_index, block_length));
                    assert forall|a: int, b: int| 0 <= a < b < t.len() implies
                        !((#[trigger] t[a]).0 == (#[trigger] t[b]).0 && t[a].1 == t[b].1) by {
                        if b == t.len() - 1 {
                            assert(t[a] == mid[a]);
                        } else {
                            assert(t[a] == mid[a] && t[b] == mid[b]);
                        }
                    }
                    assert forall|i: int| 0 <= i < start.len() implies has_key(t, (#[trigger] start[i]).0, start[i].1) by {
                        if start[i].0 == piece_index && start[i].1 == block_index {
                            assert(t[t.len() - 1].0 == start[i].0 && t[t.len() - 1].1 == start[i].1);
                        } else {
                            let a = choose|a: int| 0 <= a < before.len() && (#[trigger] before[a]).0 == start[i].0 && before[a].1 == start[i].1;
                            assert(mid.contains(before[a]));
                            let c = choose|c: int| 0 <= c < mid.len() && mid[c] == before[a];
                            assert(t[c] == mid[c]);
                        }
                    }
                    assert forall|j: int| 0 <= j < k + 1 && !requested(self.me.requests@, piece_index, (#[trigger] incomplete@[j]).0)
                        implies has_key(t, piece_index, incomplete@[j].0) by {
                        if j == k {
                            assert(t[t.len() - 1].0 == piece_index && t[t.len() - 1].1 == incomplete@[j].0);
                        } else if incomplete@[j].0 == block_index {
                            assert(t[t.len() - 1].0 == piece_index && t[t.len() - 1].1 == incomplete@[j].0);
                        } else {
                            let a = choose|a: int| 0 <= a < before.len() && (#[trigger] before[a]).0 == piece_index && before[a].1 == incomplete@[j].0;
                            assert(mid.contains(before[a]));
                            let c = choose|c: int| 0 <= c < mid.len() && mid[c] == before[a];
                            assert(t[c] == mid[c]);
                        }
                    }
                    assert(incomplete@.contains((block_index, block_length))) by {
                        assert(incomplete@[k as int] == (block_index, block_length));
                    }
                    assert forall|i: int| 0 <= i < t.len() implies {
                        ||| start.contains(#[trigger] t[i])
                        ||| t[i].0 == piece_index && incomplete@.contains((t[i].1, t[i].2))
                            && !requested(self.me.requests@, piece_index, t[i].1)
                    } by {
                        if i < t.len() - 1 {
                            assert(t[i] == mid[i]);
                            assert(before.contains(mid[i]));
                        }
                    }
                }
            } else {
                proof {
                    assert forall|j: int| 0 <= j < k + 1 && !requested(self.me.requests@, piece_index, (#[trigger] incomplete@[j]).0)
                        implies has_key(self.to_request@, piece_index, incomplete@[j].0) by {
                        if j == k {
                            assert(requested(self.me.requests@, piece_index, incomplete@[j].0));
                        }
                    }
                }
            }
            k = k + 1;
        }
        num
    }
}

impl PeerConnection {
    /// We are interested while we have requests out or blocks to request;
    /// the peer is told when that changes.
    pub fn update_my_interested_status(&mut self, out: &mut Vec<Effect>)
        requires
            old(self).wf(),
        ensures
            final(self).wf(),
            final(self).me.is_interested == (old(self).me.requests@.len() > 0 || old(self).to_request@.len() > 0),
            final(self).me.has_pieces == old(self).me.has_pieces,
            final(self).me.is_choked == old(self).me.is_choked,
            final(self).me.requests == old(self).me.requests,
            final(self).them == old(self).them,
            final(self).to_request == old(self).to_request,
            final(self).halt == old(self).halt,
            final(self).upload_in_progress == old(self).upload_in_progress,
            final(self).cat_num_list == old(self).cat_num_list,
            final(self).un_cat_num_list == old(self).un_cat_num_list,
            final(self).cat_num == old(self).cat_num,
            final(self).cat_status == old(self).cat_status,
            final(self).download_size == old(self).download_size,
            final(self).request_size == old(self).request_size,
            final(self).me.is_interested == old(self).me.is_interested ==> final(out)@ == old(out)@,
            final(self).me.is_interested != old(self).me.is_interested ==> final(out)@.len() == old(out)@.len() + 1
                && final(out)@.take(old(out)@.len() as int) == old(out)@
                && (final(self).me.is_interested ==> final(out)@.last() matches Effect::Send(Message::Interested))
                && (!final(self).me.is_interested ==> final(out)@.last() matches Effect::Send(Message::NotInterested)),
    {
        let am_interested = self.me.requests.len() > 0 || self.to_request.len() > 0;
        if self.me.is_interested != am_interested {
            self.me.is_interested = am_interested;
            let message = if am_interested { Message::Interested } else { Message::NotInterested };
            out.push(Effect::Send(message));
            assert(out@.take(old(out)@.len() as int) =~= old(out)@);
        }
    }

    /// While unchoked and interested, moves random queued blocks to our
    /// requests until `MAX_CONCURRENT_REQUESTS` are out, sending a request
    /// for each.
    pub fn request_more_blocks(&mut self, out: &mut Vec<Effect>)
        requires
            old(self).wf(),
        ensures
            final(self).wf(),
            final(self).me.has_pieces == old(self).me.has_pieces,
            final(self).me.is_choked == old(self).me.is_choked,
            final(self).me.is_interested == old(self).me.is_interested,
            final(self).them == old(self).them,
            final(self).halt == old(self).halt,
            final(self).upload_in_progress == old(self).upload_in_progress,
            final(self).cat_num_list == old(self).cat_num_list,
            final(self).un_cat_num_list == old(self).un_cat_num_list,
            final(self).cat_num == old(self).cat_num,
            final(self).cat_status == old(self).cat_status,
            final(self).download_size == old(self).download_size,
            final(self).request_size == old(self).request_size,
            old(self).me.is_choked || !old(self).me.is_interested || old(self).to_request@.len() == 0 ==>
                final(self).me.requests == old(self).me.requests && final(self).to_request == old(self).to_request
                && final(out)@ == old(out)@,
            !(old(self).me.is_choked || !old(self).me.is_interested || old(self).to_request@.len() == 0) ==>
                final(self).me.requests@.len() == MAX_CONCURRENT_REQUESTS || final(self).to_request@.len() == 0,
            old(self).me.requests@.len() <= final(self).me.requests@.len(),
            final(self).me.requests@.take(old(self).me.requests@.len() as int) == old(self).me.requests@,
            old(out)@.len() <= final(out)@.len(),
            final(out)@.take(old(out)@.len() as int) == old(out)@,
            forall|i: int| old(out)@.len() <= i < final(out)@.len() ==>
                request_sent(#[trigger] final(out)@[i], final(self).me.requests@),
            forall|x: (u32, u32, u32)| #[trigger] final(self).to_request@.contains(x) ==> old(self).to_request@.contains(x),
            forall|x: (u32, u32, u32)| #[trigger] old(self).to_request@.contains(x) ==>
                kept_block(x, final(self).to_request@, final(self).me.requests@),
            forall|i: int| old(self).me.requests@.len() <= i < final(self).me.requests@.len() ==>
                from_queue(#[trigger] final(self).me.requests@[i], old(self).to_request@),
    {
        if self.me.is_choked || !self.me.is_interested || self.to_request.len() == 0 {
            return;
        }
        let ghost out0 = out@;
        let ghost req0 = self.me.requests@;
        let ghost tr0 = self.to_request@;
        while self.me.requests.len() < MAX_CONCURRENT_REQUESTS as usize
            invariant_except_break
                self.wf(),
                self.me.has_pieces == old(self).me.has_pieces,
                self.me.is_choked == old(self).me.is_choked,
                self.me.is_interested == old(self).me.is_interested,
                self.them == old(self).them,
                self.halt == old(self).halt,
                self.upload_in_progress == old(self).upload_in_progress,
                self.cat_num_list == old(self).cat_num_list,
                self.un_cat_num_list == old(self).un_cat_num_list,
                self.cat_num == old(self).cat_num,
                self.cat_status == old(self).cat_status,
                self.download_size == old(self).download_size,
                self.request_size == old(self).request_size,
                out0 == old(out)@,
                req0 == old(self).me.requests@,
                req0.len() <= self.me.requests@.len(),
                self.me.requests@.take(req0.len() as int) == req0,
                out0.len() <= out@.len(),
                out@.take(out0.len() as int) == out0,
                forall|i: int| out0.len() <= i < out@.len() ==>
                    request_sent(#[trigger] out@[i], self.me.requests@),
                tr0 == old(self).to_request@,
                forall|x: (u32, u32, u32)| #[trigger] self.to_request@.contains(x) ==> tr0.contains(x),
                forall|x: (u32, u32, u32)| #[trigger] tr0.contains(x) ==> kept_block(x, self.to_request@, self.me.requests@),
                forall|i: int| req0.len() <= i < self.me.requests@.len() ==> from_queue(#[trigger] self.me.requests@[i], tr0),
            ensures
                self.wf(),
                self.me.has_pieces == old(self).me.has_pieces,
                self.me.is_choked == old(self).me.is_choked,
                self.me.is_interested == old(self).me.is_interested,
                self.them == old(self).them,
                self.halt == old(self).halt,
                self.upload_in_progress == old(self).upload_in_progress,
                self.cat_num_list == old(self).cat_num_list,
                self.un_cat_num_list == old(self).un_cat_num_list,
                self.cat_num == old(self).cat_num,
                self.cat_status == old(self).cat_status,
                self.download_size == old(self).download_size,
                self.request_size == old(self).request_size,
                req0.len() <= self.me.requests@.len(),
                self.me.requests@.take(req0.len() as int) == req0,
                out0.len() <= out@.len(),
                out@.take(out0.len() as int) == out0,
                forall|i: int| out0.len() <= i < out@.len() ==>
                    request_sent(#[trigger] out@[i], self.me.requests@),
                tr0 == old(self).to_request@,
                forall|x: (u32, u32, u32)| #[trigger] self.to_request@.contains(x) ==> tr0.contains(x),
                forall|x: (u32, u32, u32)| #[trigger] tr0.contains(x) ==> kept_block(x, self.to_request@, self.me.requests@),
                forall|i: int| req0.len() <= i < self.me.requests@.len() ==> from_queue(#[trigger] self.me.requests@[i], tr0),
                self.me.requests@.len() == MAX_CONCURRENT_REQUESTS || self.to_request@.len() == 0,
            decreases self.to_request@.len(),
        {
            let len = self.to_request.len();
            if len == 0 {
                break;
            }
            let index = crate::rng::random_range(0, len as u64) as usize;
            let ghost tr = self.to_request@;
            let (piece_index, block_index, block_length) = self.to_request.remove(index);
            proof {
                assert(tr[index as int].1 * BLOCK_SIZE <= u32::MAX);
                let t = self.to_request@;
                assert forall|a: int, b: int| 0 <= a < b < t.len() implies
                    !((#[trigger] t[a]).0 == (#[trigger] t[b]).0 && t[a].1 == t[b].1) by {
                    let a0 = if a < index { a } else { a + 1 };
                    let b0 = if b < index { b } else { b + 1 };
                    assert(t[a] == tr[a0] && t[b] == tr[b0]);
                }
                assert forall|a: int| 0 <= a < t.len() implies (#[trigger] t[a]).1 * BLOCK_SIZE <= u32::MAX by {
                    let a0 = if a < index { a } else { a + 1 };
                    assert(t[a] == tr[a0]);
                }
            }
            let offset = block_index * BLOCK_SIZE;
            assert(offset / BLOCK_SIZE == block_index) by (nonlinear_arith)
                requires
                    offset == block_index * BLOCK_SIZE,
                    BLOCK_SIZE == 16384,
            ;
            let ghost rq = self.me.requests@;
            let ghost outb = out@;
            let ghost t_after = self.to_request@;
            let ghost taken = tr[index as int];
            proof {
                assert forall|x: (u32, u32, u32)| #[trigger] t_after.contains(x) implies tr.contains(x) by {
                    let k = choose|k: int| 0 <= k < t_after.len() && t_after[k] == x;
                    let k0 = if k < index { k } else { k + 1 };
                    assert(tr[k0] == x);
                }
                assert forall|x: (u32, u32, u32)| #[trigger] tr.contains(x) && x != taken implies t_after.contains(x) by {
                    let k = choose|k: int| 0 <= k < tr.len() && tr[k] == x;
                    if k < index {
                        assert(t_after[k] == x);
                    } else {
                        assert(k != index);
                        assert(t_after[k - 1] == x);
                    }
                }
            }
            let added = self.me.requests.add(piece_index, block_index, offset, block_length);
            proof {
                assert(taken == (piece_index, block_index, block_length));
                assert(requested(self.me.requests@, piece_index, block_index)) by {
                    if added {
                        assert(names(self.me.requests@[self.me.requests@.len() - 1], piece_index, block_index));
                    } else {
                        let k = choose|k: int| 0 <= k < rq.len() && names(#[trigger] rq[k], piece_index, block_index);
                        assert(names(self.me.requests@[k], piece_index, block_index));
                    }
                }
                assert forall|i: int| req0.len() <= i < self.me.requests@.len() implies from_queue(#[trigger] self.me.requests@[i], tr0) by {
                    if i < rq.len() {
                        assert(self.me.requests@[i] == rq[i]);
                    } else {
                        assert(tr.contains(taken)) by {
                            assert(tr[index as int] == taken);
                        }
                        assert(tr0.contains(taken));
                    }
                }
                assert forall|x: (u32, u32, u32)| #[trigger] tr0.contains(x) implies kept_block(x, self.to_request@, self.me.requests@) by {
                    if !self.to_request@.contains(x) && x != taken {
                        if tr.contains(x) {
                            assert(t_after.contains(x));
                        }
                        assert(requested(rq, x.0, x.1));
                        let k = choose|k: int| 0 <= k < rq.len() && names(#[trigger] rq[k], x.0, x.1);
                        assert(self.me.requests@[k] == rq[k]);
                        assert(names(self.me.requests@[k], x.0, x.1));
                    }
                }
            }
            if added {
                out.push(Effect::Send(Message::Request(piece_index, offset, block_length)));
                proof {
                    let q = RequestMetadata { piece_index, block_index, offset, block_length };
                    assert(self.me.requests@[self.me.requests@.len() - 1] == q);
                    assert(self.me.requests@.take(req0.len() as int) =~= rq.take(req0.len() as int));
                    assert(out@.take(out0.len() as int) =~= outb.take(out0.len() as int));
                    assert forall|i: int| out0.len() <= i < out@.len() implies
                        request_sent(#[trigger] out@[i], self.me.requests@) by {
                        if i < out@.len() - 1 {
                            assert(out@[i] == outb[i]);
                            if let Effect::Send(Message::Request(p, o, l)) = out@[i] {
                                let w = RequestMetadata { piece_index: p, block_index: o / BLOCK_SIZE, offset: o, block_length: l };
                                let k = choose|k: int| 0 <= k < rq.len() && rq[k] == w;
                                assert(self.me.requests@[k] == rq[k]);
                            }
                        } else {
                            assert(self.me.requests@.contains(q));
                        }
                    }
                }
            }
        }
    }

    /// Brings our interest in line with what we want, then requests more
    /// blocks: the step that closes every event that may change the queue.
    fn update_and_request(&mut self, out: &mut Vec<Effect>)
        requires
            old(self).wf(),
        ensures
            final(self).wf(),
            final(self).me.has_pieces == old(self).me.has_pieces,
            final(self).me.is_choked == old(self).me.is_choked,
            final(self).me.is_interested == wants_blocks(old(self)),
            final(self).me.is_interested == wants_blocks(final(self)),
            final(self).them == old(self).them,
            final(self).halt == old(self).halt,
            final(self).upload_in_progress == old(self).upload_in_progress,
            final(self).cat_num_list == old(self).cat_num_list,
            final(self).un_cat_num_list == old(self).un_cat_num_list,
            final(self).cat_num == old(self).cat_num,
            final(self).cat_status == old(self).cat_status,
            final(self).download_size == old(self).download_size,
            final(self).request_size == old(self).request_size,
            old(out)@.len() <= final(out)@.len(),
            final(out)@.take(old(out)@.len() as int) == old(out)@,
            interest_then_requests(final(out)@.skip(old(out)@.len() as int), old(self).me.is_interested,
                wants_blocks(old(self)), final(self).me.requests@),
            requests_filled(final(self)),
            old(self).me.requests@.len() <= final(self).me.requests@.len(),
            final(self).me.requests@.take(old(self).me.requests@.len() as int) == old(self).me.requests@,
            forall|i: int| old(self).me.requests@.len() <= i < final(self).me.requests@.len() ==>
                from_queue(#[trigger] final(self).me.requests@[i], old(self).to_request@),
            forall|x: (u32, u32, u32)| #[trigger] final(self).to_request@.contains(x) ==> old(self).to_request@.contains(x),
            forall|x: (u32, u32, u32)| #[trigger] old(self).to_request@.contains(x) ==>
                kept_block(x, final(self).to_request@, final(self).me.requests@),
    {
        let ghost o0 = out@;
        self.update_my_interested_status(out);
        let ghost o1 = out@;
        let ghost s1 = *self;
        self.request_more_blocks(out);
        proof {
            let n0 = o0.len() as int;
            let head = interest_change(old(self).me.is_interested, wants_blocks(old(self)));
            assert(o1.skip(n0) =~= head);
            assert(out@.take(n0) =~= o1.take(n0)) by {
                assert(out@.take(o1.len() as int) == o1);
            }
            let v = out@.skip(n0);
            assert(v.take(head.len() as int) =~= head) by {
                assert forall|i: int| 0 <= i < head.len() implies v[i] == head[i] by {
                    assert(out@.take(o1.len() as int)[n0 + i] == o1[n0 + i]);
                }
            }
            assert forall|i: int| head.len() <= i < v.len() implies request_sent(#[trigger] v[i], self.me.requests@) by {
                assert(v[i] == out@[n0 + i]);
            }
            let r0 = old(self).me.requests@;
            let q0 = old(self).to_request@;
            let r1 = self.me.requests@;
            let q1 = self.to_request@;
            if r0.len() > 0 {
                assert(r1.len() >= r0.len());
            }
            if q0.len() > 0 {
                assert(q0.contains(q0[0]));
                assert(kept_block(q0[0], q1, r1));
            }
            if r1.len() > 0 && r0.len() == 0 {
                assert(from_queue(r1[0], q0));
            }
            if q1.len() > 0 {
                assert(q1.contains(q1[0]));
            }
        }
    }

    /// Unchokes the peer if it is choked, and starts uploading.
    pub fn unchoke_them(&mut self, out: &mut Vec<Effect>)
        requires
            old(self).wf(),
        ensures
            final(self).wf(),
            !final(self).them.is_choked,
            final(self).me == old(self).me,
            final(self).to_request == old(self).to_request,
            final(self).them.has_pieces == old(self).them.has_pieces,
            final(self).them.is_interested == old(self).them.is_interested,
            final(self).halt == old(self).halt,
            final(self).cat_num_list == old(self).cat_num_list,
            final(self).un_cat_num_list == old(self).un_cat_num_list,
            final(self).cat_num == old(self).cat_num,
            final(self).cat_status == old(self).cat_status,
            final(self).download_size == old(self).download_size,
            final(self).request_size == old(self).request_size,
            !old(self).them.is_choked ==> final(out)@ == old(out)@ && final(self).them == old(self).them
                && final(self).upload_in_progress == old(self).upload_in_progress,
            old(self).them.is_choked ==> final(out)@.len() > old(out)@.len()
                && final(out)@[old(out)@.len() as int] matches Effect::Send(Message::Unchoke),
            final(out)@.take(old(out)@.len() as int) == old(out)@,
            old(self).them.is_choked ==> ({
                let go = !old(self).upload_in_progress && old(self).them.is_interested && old(self).them.requests@.len() > 0;
                &&& go ==> final(self).upload_in_progress && final(self).them.requests@ == old(self).them.requests@.drop_first()
                    && final(out)@ == old(out)@.push(Effect::Send(Message::Unchoke)).push(Effect::Upload(old(self).them.requests@[0]))
                &&& !go ==> final(self).upload_in_progress == old(self).upload_in_progress
                    && final(self).them.requests == old(self).them.requests
                    && final(out)@ == old(out)@.push(Effect::Send(Message::Unchoke))
            }),
    {
        if self.them.is_choked {
            self.them.is_choked = false;
            out.push(Effect::Send(Message::Unchoke));
            let ghost o1 = out@;
            self.upload_next_block(out);
            assert(out@.take(old(out)@.len() as int) =~= old(out)@) by {
                assert(out@.take(o1.len() as int) == o1);
                assert(o1.take(old(out)@.len() as int) =~= old(out)@);
            }
        }
    }

    /// When the peer is unchoked, interested, and no upload is under way,
    /// starts uploading its oldest request.
    pub fn upload_next_block(&mut self, out: &mut Vec<Effect>)
        requires
            old(self).wf(),
        ensures
            final(self).wf(),
            final(self).me == old(self).me,
            final(self).to_request == old(self).to_request,
            final(self).them.has_pieces == old(self).them.has_pieces,
            final(self).them.is_choked == old(self).them.is_choked,
            final(self).them.is_interested == old(self).them.is_interested,
            final(self).halt == old(self).halt,
            final(self).cat_num_list == old(self).cat_num_list,
            final(self).un_cat_num_list == old(self).un_cat_num_list,
            final(self).cat_num == old(self).cat_num,
            final(self).cat_status == old(self).cat_status,
            final(self).download_size == old(self).download_size,
            final(self).request_size == old(self).request_size,
            final(out)@.take(old(out)@.len() as int) == old(out)@,
            ({
                let go = !old(self).upload_in_progress && !old(self).them.is_choked && old(self).them.is_interested
                    && old(self).them.requests@.len() > 0;
                &&& go ==> final(self).upload_in_progress && final(self).them.requests@ == old(self).them.requests@.drop_first()
                    && final(out)@ == old(out)@.push(Effect::Upload(old(self).them.requests@[0]))
                &&& !go ==> final(self).upload_in_progress == old(self).upload_in_progress
                    && final(self).them.requests == old(self).them.requests && final(out)@ == old(out)@
            }),
    {
        if self.upload_in_progress || self.them.is_choked || !self.them.is_interested || self.them.requests.len() == 0 {
            return;
        }
        match self.them.requests.pop() {
            Some(r) => {
                self.upload_in_progress = true;
                out.push(Effect::Upload(r));
                assert(out@.take(old(out)@.len() as int) =~= old(out)@);
            },
            None => {},
        }
    }
}

/// What an event needs of the state so that handling it indexes nothing
/// out of range.
pub open spec fn event_ok(c: &PeerConnection, ipc: IPC, pieces: Seq<Piece>, num_pieces: u32) -> bool {
    match ipc {
        IPC::Message(m) => message_ok(c, m@, pieces, num_pieces),
        IPC::PieceComplete(p) => p < c.me.has_pieces@.len(),
        IPC::CatComplete => forall|i: int| 0 <= i < c.un_cat_num_list@.len() ==> (#[trigger] c.un_cat_num_list@[i]) < pieces.len(),
        _ => true,
    }
}

impl PeerConnection {
    /// Handles an event: a message from the peer or news from the
    /// download; returns what to do in reply.
    pub fn process(&mut self, ipc: IPC, pieces: &Vec<Piece>, num_pieces: u32) -> (r: Result<Vec<Effect>, Error>)
        requires
            old(self).wf(),
            pieces_ok(pieces@),
            lists_below(old(self), pieces@.len() as int),
            event_ok(old(self), ipc, pieces@, num_pieces),
        ensures
            final(self).wf(),
            lists_below(final(self), pieces@.len() as int),
            r is Err <==> (ipc matches IPC::Message(m) && m is Port),
            match ipc {
                IPC::BlockComplete(p, b) => (forall|i: int| 0 <= i < final(self).to_request@.len() ==>
                        !((#[trigger] final(self).to_request@[i]).0 == p && final(self).to_request@[i].1 == b))
                    && !requested(final(self).me.requests@, p, b)
                    && (requested(old(self).me.requests@, p, b) ==> (r matches Ok(v) && v@.len() == 1
                        && v@[0] == Effect::Send(Message::Cancel(p, old(self).me.requests@[position_of(old(self).me.requests@, p, b)->0].offset,
                            old(self).me.requests@[position_of(old(self).me.requests@, p, b)->0].block_length))))
                    && (!requested(old(self).me.requests@, p, b) ==> (r matches Ok(v) && v@.len() == 0))
                    && (forall|i: int| 0 <= i < old(self).to_request@.len() && !((#[trigger] old(self).to_request@[i]).0 == p
                        && old(self).to_request@[i].1 == b) ==> final(self).to_request@.contains(old(self).to_request@[i]))
                    && (forall|i: int| 0 <= i < final(self).to_request@.len() ==>
                        old(self).to_request@.contains(#[trigger] final(self).to_request@[i]))
                    && (forall|i: int| 0 <= i < old(self).me.requests@.len() && !names(#[trigger] old(self).me.requests@[i], p, b)
                        ==> final(self).me.requests@.contains(old(self).me.requests@[i]))
                    && (forall|i: int| 0 <= i < final(self).me.requests@.len() ==>
                        old(self).me.requests@.contains(#[trigger] final(self).me.requests@[i]))
                    && final(self).me.is_interested == old(self).me.is_interested
                    && final(self).them == old(self).them,
                IPC::PieceComplete(p) => final(self).me.has_pieces@ == old(self).me.has_pieces@.update(p as int, true)
                    && final(self).me.is_interested == wants_blocks(old(self))
                    && (r matches Ok(v) && v@ == interest_update(old(self)) + seq![Effect::Send(Message::Have(p))]),
                IPC::CatComplete => final(self).cat_status && final(self).cat_num_list@.len() == 0
                    && final(self).un_cat_num_list@.len() == 0
                    && final(self).me.has_pieces@.len() == (if pieces@.len() < num_pieces { num_pieces as int } else { pieces@.len() as int })
                    && (forall|i: int| 0 <= i < pieces@.len() ==> final(self).me.has_pieces@[i] == (#[trigger] pieces@[i]).is_complete)
                    && final(self).me.is_choked == old(self).me.is_choked
                    && final(self).me.is_interested == wants_blocks(final(self))
                    && (forall|j: int| 0 <= j < old(self).cat_num_list@.len() + old(self).un_cat_num_list@.len() ==>
                        piece_taken(final(self).to_request@, final(self).me.requests@, pieces@,
                            #[trigger] (old(self).cat_num_list@ + old(self).un_cat_num_list@)[j] as u32))
                    && (forall|x: int| 0 <= x < old(self).to_request@.len() ==>
                        has_key(final(self).to_request@, (#[trigger] old(self).to_request@[x]).0, old(self).to_request@[x].1)
                        || requested(final(self).me.requests@, old(self).to_request@[x].0, old(self).to_request@[x].1))
                    && requests_filled(final(self))
                    && (r matches Ok(v) && interest_then_requests(v@, old(self).me.is_interested,
                        final(self).me.is_interested, final(self).me.requests@)),
                IPC::DownloadComplete => final(self).halt
                    && final(self).me.is_interested == wants_blocks(old(self))
                    && final(self).me.requests == old(self).me.requests && final(self).to_request == old(self).to_request
                    && (r matches Ok(v) && v@ == interest_update(old(self))),
                IPC::BlockUploaded => final(self).halt == old(self).halt
                    && final(self).me == old(self).me
                    && final(self).to_request == old(self).to_request
                    && ({
                        let go = !old(self).them.is_choked && old(self).them.is_interested && old(self).them.requests@.len() > 0;
                        &&& go ==> final(self).upload_in_progress
                            && final(self).them.requests@ == old(self).them.requests@.drop_first()
                            && (r matches Ok(v) && v@ == seq![Effect::Upload(old(self).them.requests@[0])])
                        &&& !go ==> !final(self).upload_in_progress
                            && final(self).them.requests == old(self).them.requests
                            && (r matches Ok(v) && v@.len() == 0)
                    }),
                IPC::Upstream_Error => final(self).halt == old(self).halt && (r matches Ok(v) && v@ == seq![Effect::Close]),
                IPC::Downstream_Error => final(self).halt == old(self).halt && (r matches Ok(v) && v@ == seq![Effect::Close]),
                IPC::Message(_) => final(self).halt == old(self).halt,
            },
    {
        let mut out: Vec<Effect> = Vec::new();
        match ipc {
            IPC::Message(message) => {
                return self.process_message(message, pieces, num_pieces);
            },
            IPC::BlockComplete(piece_index, block_index) => {
                self.remove_pending(piece_index, block_index);
                let ghost r0 = self.me.requests@;
                let removed = self.me.requests.remove(piece_index, block_index);
                proof {
                    lemma_request_removed(r0, self.me.requests@, piece_index, block_index, removed);
                }
                match removed {
                    Some(r) => {
                        out.push(Effect::Send(Message::Cancel(r.piece_index, r.offset, r.block_length)));
                    },
                    None => {},
                }
            },
            IPC::PieceComplete(piece_index) => {
                self.me.has_pieces.set(piece_index as usize, true);
                self.update_my_interested_status(&mut out);
                out.push(Effect::Send(Message::Have(piece_index)));
            },
            IPC::CatComplete => {
                let (_, have) = have_pieces(pieces, num_pieces);
                self.me.has_pieces = have;
                self.cat_status = true;
                let ghost un = self.un_cat_num_list@;
                let ghost ca = self.cat_num_list@;
                self.cat_num_list.append(&mut self.un_cat_num_list);
                assert(lists_below(self, pieces@.len() as int)) by {
                    assert forall|i: int| 0 <= i < self.cat_num_list@.len() implies (#[trigger] self.cat_num_list@[i]) < pieces@.len() by {
                        if i < ca.len() {
                            assert(self.cat_num_list@[i] == ca[i]);
                        } else {
                            assert(self.cat_num_list@[i] == un[i - ca.len()]);
                        }
                    }
                }
                let ghost all = self.cat_num_list@;
                assert(all =~= ca + un);
                self.queue_all_cat_list(pieces);
                let ghost q1 = self.to_request@;
                self.update_and_request(&mut out);
                proof {
                    let q0 = old(self).to_request@;
                    let r0 = old(self).me.requests@;
                    assert(out@.skip(0) =~= out@);
                    assert forall|x: int| 0 <= x < q0.len() implies
                        has_key(self.to_request@, (#[trigger] q0[x]).0, q0[x].1)
                        || requested(self.me.requests@, q0[x].0, q0[x].1) by {
                        lemma_key_taken(q1, self.to_request@, self.me.requests@, q0[x].0, q0[x].1);
                    }
                    assert forall|j: int| 0 <= j < all.len() implies
                        piece_taken(self.to_request@, self.me.requests@, pieces@, #[trigger] all[j] as u32) by {
                        lemma_piece_taken(q1, r0, self.to_request@, self.me.requests@, pieces@, all[j] as u32);
                    }
                }
            },
            IPC::DownloadComplete => {
                self.halt = true;
                self.update_my_interested_status(&mut out);
            },
            IPC::BlockUploaded => {
                self.upload_in_progress = false;
                self.upload_next_block(&mut out);
            },
            IPC::Downstream_Error => {
                out.push(Effect::Close);
            },
            IPC::Upstream_Error => {
                out.push(Effect::Close);
            },
        }
        Ok(out)
    }
}

/// We want blocks from the peer: some are requested or queued.
pub open spec fn wants_blocks(c: &PeerConnection) -> bool {
    c.me.requests@.len() > 0 || c.to_request@.len() > 0
}

/// The effects with which our interest goes from `was` to `wants`: none
/// when it does not change, else the new interest.
pub open spec fn interest_change(was: bool, wants: bool) -> Seq<Effect> {
    if wants == was {
        Seq::empty()
    } else if wants {
        seq![Effect::Send(Message::Interested)]
    } else {
        seq![Effect::Send(Message::NotInterested)]
    }
}

/// The effects with which our interest follows what we want.
pub open spec fn interest_update(c: &PeerConnection) -> Seq<Effect> {
    interest_change(c.me.is_interested, wants_blocks(c))
}

/// `v` is the change of our interest from `was` to `wants`, followed by
/// requests that are among `reqs`.
pub open spec fn interest_then_requests(v: Seq<Effect>, was: bool, wants: bool, reqs: Seq<RequestMetadata>) -> bool {
    let head = interest_change(was, wants);
    &&& head.len() <= v.len()
    &&& v.take(head.len() as int) == head
    &&& forall|i: int| head.len() <= i < v.len() ==> request_sent(#[trigger] v[i], reqs)
}

/// While we are unchoked and interested, requests are out up to the limit
/// or nothing is left in the queue.
pub open spec fn requests_filled(c: &PeerConnection) -> bool {
    c.me.is_choked || !c.me.is_interested || c.me.requests@.len() == MAX_CONCURRENT_REQUESTS || c.to_request@.len() == 0
}

/// Some request other than the one for block `b` of piece `p` is out.
pub open spec fn others_out(reqs: Seq<RequestMetadata>, p: u32, b: u32) -> bool {
    exists|i: int| 0 <= i < reqs.len() && !names(#[trigger] reqs[i], p, b)
}

/// The request for block `b` of piece `p` is answered: every other request
/// stays out, every request now out was out before or was taken from the
/// queue, and unless the block is queued too it is no longer requested.
pub open spec fn answered(before: Seq<RequestMetadata>, queue: Seq<(u32, u32, u32)>, after: Seq<RequestMetadata>, p: u32, b: u32) -> bool {
    &&& forall|i: int| 0 <= i < before.len() && !names(#[trigger] before[i], p, b) ==> after.contains(before[i])
    &&& forall|i: int| 0 <= i < after.len() ==>
        (before.contains(#[trigger] after[i]) && !names(after[i], p, b)) || from_queue(after[i], queue)
    &&& !has_key(queue, p, b) ==> !requested(after, p, b)
}

/// The queued block is still queued, or is requested.
pub open spec fn kept_block(x: (u32, u32, u32), queue: Seq<(u32, u32, u32)>, reqs: Seq<RequestMetadata>) -> bool {
    queue.contains(x) || requested(reqs, x.0, x.1)
}

/// The request was taken from the queue: same piece, block and length, at
/// the block's offset.
pub open spec fn from_queue(q: RequestMetadata, queue: Seq<(u32, u32, u32)>) -> bool {
    queue.contains((q.piece_index, q.block_index, q.block_length)) && q.offset == q.block_index * BLOCK_SIZE
}

/// The effect sends a request that is among the requests.
pub open spec fn request_sent(e: Effect, reqs: Seq<RequestMetadata>) -> bool {
    match e {
        Effect::Send(Message::Request(p, o, l)) =>
            reqs.contains(RequestMetadata { piece_index: p, block_index: o / BLOCK_SIZE, offset: o, block_length: l }),
        _ => false,
    }
}

/// Every piece is well formed and its blocks can be counted in an `i32`.
pub open spec fn pieces_ok(pieces: Seq<Piece>) -> bool {
    &&& pieces.len() <= u32::MAX
    &&& forall|i: int| 0 <= i < pieces.len() ==> piece_wf(#[trigger] pieces[i]) && pieces[i].blocks@.len() < i32::MAX
}

/// Every index waiting in the list of split pieces names a piece.
pub open spec fn lists_below(c: &PeerConnection, n: int) -> bool {
    forall|i: int| 0 <= i < c.cat_num_list@.len() ==> (#[trigger] c.cat_num_list@[i]) < n
}

/// What a message needs of the state so that handling it indexes nothing
/// out of range.
pub open spec fn message_ok(c: &PeerConnection, m: MessageView, pieces: Seq<Piece>, num_pieces: u32) -> bool {
    match m {
        MessageView::Have(i) => i < c.them.has_pieces@.len() && (c.cat_status ==> i < pieces.len()),
        MessageView::Bitfield(bytes) => c.them.has_pieces@.len() <= 8 * bytes.len()
            && c.cat_num <= pieces.len(),
        MessageView::Piece(_, _, data) => c.download_size + data.len() <= usize::MAX,
        MessageView::KeepAlive => c.them.has_pieces@.len() >= pieces.len() && c.them.has_pieces@.len() >= num_pieces,
        _ => true,
    }
}

/// Every block of piece `p` that is not requested is queued.
pub open spec fn piece_queued(q: Seq<(u32, u32, u32)>, reqs: Seq<RequestMetadata>, pieces: Seq<Piece>, p: u32) -> bool {
    forall|k: int| 0 <= k < block_list(pieces[p as int]).len()
        && !requested(reqs, p, (#[trigger] block_list(pieces[p as int])[k]).0) ==>
        has_key(q, p, block_list(pieces[p as int])[k].0)
}

/// The queue entry is a block of piece `p` that is not requested.
pub open spec fn from_piece(e: (u32, u32, u32), reqs: Seq<RequestMetadata>, pieces: Seq<Piece>, p: u32) -> bool {
    &&& e.0 == p
    &&& block_list(pieces[p as int]).contains((e.1, e.2))
    &&& !requested(reqs, p, e.1)
}

/// How many pieces `queue_from_cat_list` takes off the list: `request_size`
/// of them, or all when fewer wait.
pub open spec fn cat_pops(c: &PeerConnection) -> int {
    if c.request_size < c.cat_num_list@.len() { c.request_size as int } else { c.cat_num_list@.len() as int }
}

/// Removing the request for a block leaves exactly the other requests.
proof fn lemma_request_removed(before: Seq<RequestMetadata>, after: Seq<RequestMetadata>, p: u32, b: u32, r: Option<RequestMetadata>)
    requires
        distinct_blocks(before),
        match r {
            Some(q) => exists|i: int| 0 <= i < before.len() && before[i] == q
                && names(q, p, b) && after == before.remove(i),
            None => after == before
                && forall|i: int| 0 <= i < before.len() ==> !names(#[trigger] before[i], p, b),
        },
        forall|i: int| 0 <= i < after.len() ==> !names(#[trigger] after[i], p, b),
    ensures
        forall|i: int| 0 <= i < before.len() && !names(#[trigger] before[i], p, b) ==> after.contains(before[i]),
        forall|i: int| 0 <= i < after.len() ==> before.contains(#[trigger] after[i]),
        after.len() > 0 <==> others_out(before, p, b),
{
    match r {
        Some(q) => {
            let k = choose|i: int| 0 <= i < before.len() && before[i] == q && names(q, p, b) && after == before.remove(i);
            assert forall|i: int| 0 <= i < before.len() && !names(#[trigger] before[i], p, b) implies after.contains(before[i]) by {
                if i < k {
                    assert(after[i] == before[i]);
                } else {
                    assert(i != k);
                    assert(after[i - 1] == before[i]);
                }
            }
            assert forall|i: int| 0 <= i < after.len() implies before.contains(#[trigger] after[i]) by {
                if i < k {
                    assert(after[i] == before[i]);
                } else {
                    assert(after[i] == before[i + 1]);
                }
            }
            if others_out(before, p, b) {
                let j = choose|j: int| 0 <= j < before.len() && !names(#[trigger] before[j], p, b);
                assert(j != k);
            }
            if after.len() > 0 {
                assert(!names(after[0], p, b));
                assert(before.contains(after[0]));
                let j = choose|j: int| 0 <= j < before.len() && before[j] == after[0];
                assert(!names(before[j], p, b));
            }
        },
        None => {
            if after.len() > 0 {
                assert(!names(before[0], p, b));
            }
            assert forall|i: int| 0 <= i < after.len() implies before.contains(#[trigger] after[i]) by {
                assert(before[i] == after[i]);
            }
        },
    }
}

/// A piece whose blocks are all queued or requested stays so when every
/// queued key is kept.
proof fn lemma_queued_kept(before: Seq<(u32, u32, u32)>, after: Seq<(u32, u32, u32)>, reqs: Seq<RequestMetadata>, pieces: Seq<Piece>, p: u32)
    requires
        forall|x: int| 0 <= x < before.len() ==> has_key(after, (#[trigger] before[x]).0, before[x].1),
        piece_queued(before, reqs, pieces, p),
    ensures
        piece_queued(after, reqs, pieces, p),
{
    assert forall|k: int| 0 <= k < block_list(pieces[p as int]).len()
        && !requested(reqs, p, (#[trigger] block_list(pieces[p as int])[k]).0) implies
        has_key(after, p, block_list(pieces[p as int])[k].0) by {
        lemma_keys_kept(before, after, p, block_list(pieces[p as int])[k].0);
    }
}

/// The indices in `lo..hi` of the pieces marked in `has`, in order.
pub open spec fn marked_between(has: Seq<bool>, lo: int, hi: int) -> Seq<usize>
    decreases hi - lo,
{
    if hi <= lo {
        Seq::empty()
    } else if has[hi - 1] {
        marked_between(has, lo, hi - 1).push((hi - 1) as usize)
    } else {
        marked_between(has, lo, hi - 1)
    }
}

/// A block that was queued is still queued or is requested, when every
/// queued entry was kept.
proof fn lemma_key_taken(before: Seq<(u32, u32, u32)>, after: Seq<(u32, u32, u32)>, reqs: Seq<RequestMetadata>, p: u32, b: u32)
    requires
        has_key(before, p, b),
        forall|x: (u32, u32, u32)| #[trigger] before.contains(x) ==> kept_block(x, after, reqs),
    ensures
        has_key(after, p, b) || requested(reqs, p, b),
{
    let i = choose|i: int| 0 <= i < before.len() && (#[trigger] before[i]).0 == p && before[i].1 == b;
    assert(before.contains(before[i]));
    if after.contains(before[i]) {
        let j = choose|j: int| 0 <= j < after.len() && after[j] == before[i];
        assert(after[j].0 == p && after[j].1 == b);
    }
}

/// Every block piece `p` still needs is queued or requested.
pub open spec fn piece_taken(q: Seq<(u32, u32, u32)>, reqs: Seq<RequestMetadata>, pieces: Seq<Piece>, p: u32) -> bool {
    forall|k: int| 0 <= k < block_list(pieces[p as int]).len() ==>
        has_key(q, p, (#[trigger] block_list(pieces[p as int])[k]).0) || requested(reqs, p, block_list(pieces[p as int])[k].0)
}

/// A piece whose blocks were queued or requested stays so once requests
/// are only added and every queued entry is kept.
proof fn lemma_piece_taken(before_q: Seq<(u32, u32, u32)>, before_reqs: Seq<RequestMetadata>, after_q: Seq<(u32, u32, u32)>,
    after_reqs: Seq<RequestMetadata>, pieces: Seq<Piece>, p: u32)
    requires
        piece_queued(before_q, before_reqs, pieces, p),
        before_reqs.len() <= after_reqs.len(),
        after_reqs.take(before_reqs.len() as int) == before_reqs,
        forall|x: (u32, u32, u32)| #[trigger] before_q.contains(x) ==> kept_block(x, after_q, after_reqs),
    ensures
        piece_taken(after_q, after_reqs, pieces, p),
{
    assert forall|k: int| 0 <= k < block_list(pieces[p as int]).len() implies
        has_key(after_q, p, (#[trigger] block_list(pieces[p as int])[k]).0)
        || requested(after_reqs, p, block_list(pieces[p as int])[k].0) by {
        let b = block_list(pieces[p as int])[k].0;
        if requested(before_reqs, p, b) {
            let i = choose|i: int| 0 <= i < before_reqs.len() && names(#[trigger] before_reqs[i], p, b);
            assert(after_reqs.take(before_reqs.len() as int)[i] == after_reqs[i]);
            assert(names(after_reqs[i], p, b));
        } else {
            lemma_key_taken(before_q, after_q, after_reqs, p, b);
        }
    }
}

/// Keys present stay present when every old key is kept.
proof fn lemma_keys_kept(before: Seq<(u32, u32, u32)>, after: Seq<(u32, u32, u32)>, p: u32, b: u32)
    requires
        forall|x: int| 0 <= x < before.len() ==> has_key(after, (#[trigger] before[x]).0, before[x].1),
        has_key(before, p, b),
    ensures
        has_key(after, p, b),
{
    let x = choose|x: int| 0 <= x < before.len() && (#[trigger] before[x]).0 == p && before[x].1 == b;
    assert(has_key(after, before[x].0, before[x].1));
}

impl PeerConnection {
    /// Queues the blocks of up to `request_size` pieces taken from the end
    /// of the list of split pieces the peer has.
    fn queue_from_cat_list(&mut self, pieces: &Vec<Piece>)
        requires
            old(self).wf(),
            pieces_ok(pieces@),
            lists_below(old(self), pieces@.len() as int),
        ensures
            final(self).wf(),
            lists_below(final(self), pieces@.len() as int),
            final(self).me == old(self).me,
            final(self).them == old(self).them,
            final(self).halt == old(self).halt,
            final(self).upload_in_progress == old(self).upload_in_progress,
            final(self).request_size == old(self).request_size,
            final(self).cat_num == old(self).cat_num,
            final(self).cat_status == old(self).cat_status,
            final(self).un_cat_num_list == old(self).un_cat_num_list,
            final(self).download_size == old(self).download_size,
            final(self).cat_num_list@ == old(self).cat_num_list@.take(old(self).cat_num_list@.len() - cat_pops(old(self))),
            forall|x: int| 0 <= x < old(self).to_request@.len() ==>
                has_key(final(self).to_request@, (#[trigger] old(self).to_request@[x]).0, old(self).to_request@[x].1),
            forall|j: int| old(self).cat_num_list@.len() - cat_pops(old(self)) <= j < old(self).cat_num_list@.len() ==>
                piece_queued(final(self).to_request@, old(self).me.requests@, pieces@, #[trigger] old(self).cat_num_list@[j] as u32),
            forall|x: int| 0 <= x < final(self).to_request@.len() ==>
                old(self).to_request@.contains(#[trigger] final(self).to_request@[x])
                || exists|j: int| old(self).cat_num_list@.len() - cat_pops(old(self)) <= j < old(self).cat_num_list@.len()
                    && from_piece(final(self).to_request@[x], old(self).me.requests@, pieces@, #[trigger] old(self).cat_num_list@[j] as u32),
    {
        let ghost cl0 = self.cat_num_list@;
        let ghost n0 = cl0.len() as int;
        let ghost tr0 = self.to_request@;
        let ghost reqs = self.me.requests@;
        let mut i: u8 = 0;
        assert(cl0.take(n0) =~= cl0);
        while i < self.request_size
            invariant_except_break
                self.wf(),
                lists_below(self, pieces@.len() as int),
                pieces_ok(pieces@),
                self.me == old(self).me,
                self.them == old(self).them,
                self.halt == old(self).halt,
                self.upload_in_progress == old(self).upload_in_progress,
                self.request_size == old(self).request_size,
                self.cat_num == old(self).cat_num,
                self.cat_status == old(self).cat_status,
                self.un_cat_num_list == old(self).un_cat_num_list,
                self.download_size == old(self).download_size,
                cl0 == old(self).cat_num_list@,
                n0 == cl0.len(),
                tr0 == old(self).to_request@,
                reqs == old(self).me.requests@,
                i <= self.request_size,
                i <= n0,
                self.cat_num_list@ == cl0.take(n0 - i),
                forall|x: int| 0 <= x < tr0.len() ==> has_key(self.to_request@, (#[trigger] tr0[x]).0, tr0[x].1),
                forall|j: int| n0 - i <= j < n0 ==> piece_queued(self.to_request@, reqs, pieces@, #[trigger] cl0[j] as u32),
                forall|x: int| 0 <= x < self.to_request@.len() ==> tr0.contains(#[trigger] self.to_request@[x])
                    || exists|j: int| n0 - i <= j < n0 && from_piece(self.to_request@[x], reqs, pieces@, #[trigger] cl0[j] as u32),
            ensures
                self.wf(),
                lists_below(self, pieces@.len() as int),
                self.me == old(self).me,
                self.them == old(self).them,
                self.halt == old(self).halt,
                self.upload_in_progress == old(self).upload_in_progress,
                self.request_size == old(self).request_size,
                self.cat_num == old(self).cat_num,
                self.cat_status == old(self).cat_status,
                self.un_cat_num_list == old(self).un_cat_num_list,
                self.download_size == old(self).download_size,
                (i == self.request_size && i <= n0) || (i == n0 && i <= self.request_size),
                self.cat_num_list@ == cl0.take(n0 - i),
                forall|x: int| 0 <= x < tr0.len() ==> has_key(self.to_request@, (#[trigger] tr0[x]).0, tr0[x].1),
                forall|j: int| n0 - i <= j < n0 ==> piece_queued(self.to_request@, reqs, pieces@, #[trigger] cl0[j] as u32),
                forall|x: int| 0 <= x < self.to_request@.len() ==> tr0.contains(#[trigger] self.to_request@[x])
                    || exists|j: int| n0 - i <= j < n0 && from_piece(self.to_request@[x], reqs, pieces@, #[trigger] cl0[j] as u32),
            decreases self.request_size - i,
        {
            let ghost q_before = self.to_request@;
            match self.cat_num_list.pop() {
                Some(have_index) => {
                    proof {
                        assert(cl0[n0 - i - 1] == have_index);
                        assert(self.cat_num_list@ =~= cl0.take(n0 - (i + 1)));
                    }
                    let piece_index = have_index as u32;
                    self.queue_blocks(piece_index, pieces);
                    proof {
                        let q = self.to_request@;
                        assert forall|x: int| 0 <= x < tr0.len() implies has_key(q, (#[trigger] tr0[x]).0, tr0[x].1) by {
                            assert(has_key(q_before, tr0[x].0, tr0[x].1));
                            lemma_keys_kept(q_before, q, tr0[x].0, tr0[x].1);
                        }
                        assert forall|j: int| n0 - (i + 1) <= j < n0 implies piece_queued(q, reqs, pieces@, #[trigger] cl0[j] as u32) by {
                            let p = cl0[j] as u32;
                            if j == n0 - i - 1 {
                                assert(p == piece_index);
                            } else {
                                assert(piece_queued(q_before, reqs, pieces@, p));
                                assert forall|k: int| 0 <= k < block_list(pieces@[p as int]).len()
                                    && !requested(reqs, p, (#[trigger] block_list(pieces@[p as int])[k]).0) implies
                                    has_key(q, p, block_list(pieces@[p as int])[k].0) by {
                                    lemma_keys_kept(q_before, q, p, block_list(pieces@[p as int])[k].0);
                                }
                            }
                        }
                        assert forall|x: int| 0 <= x < q.len() implies tr0.contains(#[trigger] q[x])
                            || exists|j: int| n0 - (i + 1) <= j < n0 && from_piece(q[x], reqs, pieces@, #[trigger] cl0[j] as u32) by {
                            if q_before.contains(q[x]) {
                                let y = choose|y: int| 0 <= y < q_before.len() && q_before[y] == q[x];
                                if !tr0.contains(q_before[y]) {
                                    let j = choose|j: int| n0 - i <= j < n0 && from_piece(q_before[y], reqs, pieces@, #[trigger] cl0[j] as u32);
                                    assert(from_piece(q[x], reqs, pieces@, cl0[j] as u32));
                                }
                            } else {
                                let j = n0 - i - 1;
                                assert(from_piece(q[x], reqs, pieces@, cl0[j] as u32));
                            }
                        }
                    }
                },
                None => {
                    break;
                },
            }
            i = i + 1;
        }
        proof {
            assert(cat_pops(old(self)) == i);
        }
    }

    /// Queues the blocks of every piece waiting in the split list.
    fn queue_all_cat_list(&mut self, pieces: &Vec<Piece>)
        requires
            old(self).wf(),
            pieces_ok(pieces@),
            lists_below(old(self), pieces@.len() as int),
        ensures
            final(self).wf(),
            lists_below(final(self), pieces@.len() as int),
            final(self).cat_num_list@.len() == 0,
            final(self).me == old(self).me,
            final(self).them == old(self).them,
            final(self).halt == old(self).halt,
            final(self).upload_in_progress == old(self).upload_in_progress,
            final(self).request_size == old(self).request_size,
            final(self).cat_num == old(self).cat_num,
            final(self).cat_status == old(self).cat_status,
            final(self).un_cat_num_list == old(self).un_cat_num_list,
            final(self).download_size == old(self).download_size,
            forall|x: int| 0 <= x < old(self).to_request@.len() ==>
                has_key(final(self).to_request@, (#[trigger] old(self).to_request@[x]).0, old(self).to_request@[x].1),
            forall|j: int| 0 <= j < old(self).cat_num_list@.len() ==>
                piece_queued(final(self).to_request@, old(self).me.requests@, pieces@, #[trigger] old(self).cat_num_list@[j] as u32),
            forall|x: int| 0 <= x < final(self).to_request@.len() ==>
                old(self).to_request@.contains(#[trigger] final(self).to_request@[x])
                || from_piece(final(self).to_request@[x], old(self).me.requests@, pieces@, final(self).to_request@[x].0),
    {
        let ghost cl0 = self.cat_num_list@;
        let ghost tr0 = self.to_request@;
        let ghost reqs = self.me.requests@;
        assert(cl0.take(cl0.len() as int) =~= cl0);
        while self.cat_num_list.len() > 0
            invariant
                self.wf(),
                lists_below(self, pieces@.len() as int),
                pieces_ok(pieces@),
                self.me == old(self).me,
                self.them == old(self).them,
                self.halt == old(self).halt,
                self.upload_in_progress == old(self).upload_in_progress,
                self.request_size == old(self).request_size,
                self.cat_num == old(self).cat_num,
                self.cat_status == old(self).cat_status,
                self.un_cat_num_list == old(self).un_cat_num_list,
                self.download_size == old(self).download_size,
                cl0 == old(self).cat_num_list@,
                tr0 == old(self).to_request@,
                reqs == old(self).me.requests@,
                self.cat_num_list@.len() <= cl0.len(),
                self.cat_num_list@ == cl0.take(self.cat_num_list@.len() as int),
                forall|x: int| 0 <= x < tr0.len() ==> has_key(self.to_request@, (#[trigger] tr0[x]).0, tr0[x].1),
                forall|j: int| self.cat_num_list@.len() <= j < cl0.len() ==>
                    piece_queued(self.to_request@, reqs, pieces@, #[trigger] cl0[j] as u32),
                forall|x: int| 0 <= x < self.to_request@.len() ==> tr0.contains(#[trigger] self.to_request@[x])
                    || from_piece(self.to_request@[x], reqs, pieces@, self.to_request@[x].0),
            decreases self.cat_num_list@.len(),
        {
            let ghost n = self.cat_num_list@.len() as int;
            let ghost q_before = self.to_request@;
            match self.cat_num_list.pop() {
                Some(have_index) => {
                    proof {
                        assert(cl0.take(n)[n - 1] == cl0[n - 1]);
                        assert(self.cat_num_list@ =~= cl0.take(n - 1));
                    }
                    self.queue_blocks(have_index as u32, pieces);
                    proof {
                        let q = self.to_request@;
                        assert forall|x: int| 0 <= x < tr0.len() implies has_key(q, (#[trigger] tr0[x]).0, tr0[x].1) by {
                            assert(has_key(q_before, tr0[x].0, tr0[x].1));
                            lemma_keys_kept(q_before, q, tr0[x].0, tr0[x].1);
                        }
                        assert forall|j: int| n - 1 <= j < cl0.len() implies
                            piece_queued(q, reqs, pieces@, #[trigger] cl0[j] as u32) by {
                            if j >= n {
                                lemma_queued_kept(q_before, q, reqs, pieces@, cl0[j] as u32);
                            }
                        }
                        assert forall|x: int| 0 <= x < q.len() implies tr0.contains(#[trigger] q[x])
                            || from_piece(q[x], reqs, pieces@, q[x].0) by {
                            if q_before.contains(q[x]) {
                                let y = choose|y: int| 0 <= y < q_before.len() && q_before[y] == q[x];
                                assert(tr0.contains(q_before[y]) || from_piece(q_before[y], reqs, pieces@, q_before[y].0));
                            }
                        }
                    }
                },
                None => {},
            }
        }
    }

    /// Takes in how far the pieces are split and queues the blocks of the
    /// pieces the peer has: all of them once every piece is split, else a
    /// batch from the list of split pieces; the lists of split and unsplit
    /// pieces the peer has are then made anew.
    fn refresh_split(&mut self, pieces: &Vec<Piece>, num_pieces: u32)
        requires
            old(self).wf(),
            pieces_ok(pieces@),
            lists_below(old(self), pieces@.len() as int),
            old(self).them.has_pieces@.len() >= pieces@.len(),
            old(self).them.has_pieces@.len() >= num_pieces,
        ensures
            final(self).wf(),
            lists_below(final(self), pieces@.len() as int),
            final(self).halt == old(self).halt,
            final(self).them == old(self).them,
            final(self).me.is_choked == old(self).me.is_choked,
            final(self).me.is_interested == old(self).me.is_interested,
            final(self).me.requests == old(self).me.requests,
            final(self).upload_in_progress == old(self).upload_in_progress,
            final(self).request_size == old(self).request_size,
            final(self).cat_status == old(self).cat_status,
            final(self).download_size == old(self).download_size,
            final(self).cat_num == pieces@.len(),
            final(self).me.has_pieces@.len() == (if pieces@.len() < num_pieces { num_pieces as int } else { pieces@.len() as int }),
            forall|i: int| 0 <= i < pieces@.len() ==> final(self).me.has_pieces@[i] == (#[trigger] pieces@[i]).is_complete,
            forall|i: int| pieces@.len() <= i < final(self).me.has_pieces@.len() ==> !#[trigger] final(self).me.has_pieces@[i],
            forall|x: int| 0 <= x < old(self).to_request@.len() ==>
                has_key(final(self).to_request@, (#[trigger] old(self).to_request@[x]).0, old(self).to_request@[x].1),
            forall|x: int| 0 <= x < final(self).to_request@.len() ==>
                old(self).to_request@.contains(#[trigger] final(self).to_request@[x])
                || from_piece(final(self).to_request@[x], old(self).me.requests@, pieces@, final(self).to_request@[x].0),
            pieces@.len() >= num_pieces ==> final(self).cat_num_list@.len() == 0 && final(self).un_cat_num_list@.len() == 0
                && forall|i: int| 0 <= i < pieces@.len() && #[trigger] old(self).them.has_pieces@[i] ==>
                    piece_queued(final(self).to_request@, old(self).me.requests@, pieces@, i as u32),
            pieces@.len() < num_pieces ==>
                final(self).cat_num_list@ == marked_between(old(self).them.has_pieces@, 0, pieces@.len() as int)
                && final(self).un_cat_num_list@ == marked_between(old(self).them.has_pieces@, pieces@.len() as int, num_pieces as int)
                && forall|j: int| old(self).cat_num_list@.len() - cat_pops(old(self)) <= j < old(self).cat_num_list@.len() ==>
                    piece_queued(final(self).to_request@, old(self).me.requests@, pieces@, #[trigger] old(self).cat_num_list@[j] as u32),
    {
        let (cat_num, have) = have_pieces(pieces, num_pieces);
        let pieces_num = have.len();
        let mut cat_list: Vec<usize> = Vec::new();
        let mut un_cat_list: Vec<usize> = Vec::new();
        let ghost tr0 = self.to_request@;
        let ghost reqs = self.me.requests@;
        let ghost has = self.them.has_pieces@;
        if cat_num == pieces_num {
            let mut i: usize = 0;
            while i < pieces_num
                invariant
                    i <= pieces_num,
                    pieces_num == cat_num,
                    cat_num == pieces@.len(),
                    pieces_ok(pieces@),
                    self.wf(),
                    lists_below(self, pieces@.len() as int),
                    self.them.has_pieces@.len() >= pieces@.len(),
                    self.halt == old(self).halt,
                    self.them == old(self).them,
                    self.me == old(self).me,
                    self.upload_in_progress == old(self).upload_in_progress,
                    self.request_size == old(self).request_size,
                    self.cat_status == old(self).cat_status,
                    self.download_size == old(self).download_size,
                    tr0 == old(self).to_request@,
                    reqs == old(self).me.requests@,
                    has == old(self).them.has_pieces@,
                    forall|x: int| 0 <= x < tr0.len() ==> has_key(self.to_request@, (#[trigger] tr0[x]).0, tr0[x].1),
                    forall|x: int| 0 <= x < self.to_request@.len() ==> tr0.contains(#[trigger] self.to_request@[x])
                        || from_piece(self.to_request@[x], reqs, pieces@, self.to_request@[x].0),
                    forall|k: int| 0 <= k < i && #[trigger] has[k] ==> piece_queued(self.to_request@, reqs, pieces@, k as u32),
                decreases pieces_num - i,
            {
                if self.them.has_pieces[i] {
                    let ghost q_before = self.to_request@;
                    self.queue_blocks(i as u32, pieces);
                    proof {
                        let q = self.to_request@;
                        assert forall|x: int| 0 <= x < tr0.len() implies has_key(q, (#[trigger] tr0[x]).0, tr0[x].1) by {
                            assert(has_key(q_before, tr0[x].0, tr0[x].1));
                            lemma_keys_kept(q_before, q, tr0[x].0, tr0[x].1);
                        }
                        assert forall|k: int| 0 <= k < i + 1 && #[trigger] has[k] implies piece_queued(q, reqs, pieces@, k as u32) by {
                            if k < i {
                                lemma_queued_kept(q_before, q, reqs, pieces@, k as u32);
                            }
                        }
                        assert forall|x: int| 0 <= x < q.len() implies tr0.contains(#[trigger] q[x])
                            || from_piece(q[x], reqs, pieces@, q[x].0) by {
                            if q_before.contains(q[x]) {
                                let y = choose|y: int| 0 <= y < q_before.len() && q_before[y] == q[x];
                                assert(tr0.contains(q_before[y]) || from_piece(q_before[y], reqs, pieces@, q_before[y].0));
                            }
                        }
                    }
                }
                i = i + 1;
            }
        } else {
            let mut i: usize = 0;
            while i < pieces_num
                invariant
                    i <= pieces_num,
                    cat_num == pieces@.len(),
                    cat_num < pieces_num,
                    pieces_num <= self.them.has_pieces@.len(),
                    has == self.them.has_pieces@,
                    forall|k: int| 0 <= k < cat_list@.len() ==> (#[trigger] cat_list@[k]) < cat_num,
                    cat_list@ == marked_between(has, 0, if i < cat_num { i as int } else { cat_num as int }),
                    un_cat_list@ == marked_between(has, cat_num as int, i as int),
                decreases pieces_num - i,
            {
                if self.them.has_pieces[i] {
                    if i < cat_num {
                        cat_list.push(i);
                    } else {
                        un_cat_list.push(i);
                    }
                }
                i = i + 1;
            }
            self.queue_from_cat_list(pieces);
            proof {
                assert forall|x: int| 0 <= x < self.to_request@.len() implies tr0.contains(#[trigger] self.to_request@[x])
                    || from_piece(self.to_request@[x], reqs, pieces@, self.to_request@[x].0) by {
                    if !tr0.contains(self.to_request@[x]) {
                        let n0 = old(self).cat_num_list@.len() as int;
                        let j = choose|j: int| n0 - cat_pops(old(self)) <= j < n0
                            && from_piece(self.to_request@[x], reqs, pieces@, #[trigger] old(self).cat_num_list@[j] as u32);
                    }
                }
            }
        }
        self.cat_num = cat_num;
        self.me.has_pieces = have;
        self.cat_num_list = cat_list;
        self.un_cat_num_list = un_cat_list;
    }

    /// Handles a message from the peer; returns what to do in reply.
    pub fn process_message(&mut self, message: Message, pieces: &Vec<Piece>, num_pieces: u32) -> (r: Result<Vec<Effect>, Error>)
        requires
            old(self).wf(),
            pieces_ok(pieces@),
            lists_below(old(self), pieces@.len() as int),
            message_ok(old(self), message@, pieces@, num_pieces),
        ensures
            final(self).wf(),
            lists_below(final(self), pieces@.len() as int),
            final(self).halt == old(self).halt,
            (message is Port) <==> r is Err,
            r matches Err(e) ==> e matches Error::UnknownRequestType(Message::Port),
            match message@ {
                MessageView::Choke => final(self).me.is_choked && (r matches Ok(v) && v@.len() == 0)
                    && final(self).me.requests == old(self).me.requests && final(self).to_request == old(self).to_request
                    && final(self).them == old(self).them,
                MessageView::Unchoke => !final(self).me.is_choked
                    && (r matches Ok(v) && forall|i: int| 0 <= i < v@.len() ==> request_sent(#[trigger] v@[i], final(self).me.requests@))
                    && (!old(self).me.is_choked ==> (r matches Ok(v) && v@.len() == 0)
                        && final(self).me.requests == old(self).me.requests && final(self).to_request == old(self).to_request)
                    && (old(self).me.is_choked && old(self).me.is_interested ==>
                        final(self).me.requests@.len() == MAX_CONCURRENT_REQUESTS || final(self).to_request@.len() == 0)
                    && (forall|x: (u32, u32, u32)| #[trigger] old(self).to_request@.contains(x) ==>
                        kept_block(x, final(self).to_request@, final(self).me.requests@))
                    && final(self).me.is_interested == old(self).me.is_interested
                    && old(self).me.requests@.len() <= final(self).me.requests@.len()
                    && final(self).me.requests@.take(old(self).me.requests@.len() as int) == old(self).me.requests@
                    && (forall|i: int| old(self).me.requests@.len() <= i < final(self).me.requests@.len() ==>
                        from_queue(#[trigger] final(self).me.requests@[i], old(self).to_request@))
                    && (forall|x: (u32, u32, u32)| #[trigger] final(self).to_request@.contains(x) ==> old(self).to_request@.contains(x)),
                MessageView::Interested => final(self).them.is_interested && !final(self).them.is_choked
                    && final(self).me == old(self).me && final(self).to_request == old(self).to_request
                    && (old(self).them.is_choked ==> (r matches Ok(v) && v@.len() > 0 && v@[0] matches Effect::Send(Message::Unchoke)))
                    && (old(self).them.is_choked ==> ({
                        let go = !old(self).upload_in_progress && old(self).them.requests@.len() > 0;
                        &&& go ==> final(self).upload_in_progress && final(self).them.requests@ == old(self).them.requests@.drop_first()
                            && (r matches Ok(v) && v@ == seq![Effect::Send(Message::Unchoke), Effect::Upload(old(self).them.requests@[0])])
                        &&& !go ==> final(self).them.requests == old(self).them.requests
                            && (r matches Ok(v) && v@ == seq![Effect::Send(Message::Unchoke)])
                    }))
                    && (!old(self).them.is_choked ==> final(self).them.requests == old(self).them.requests
                        && (r matches Ok(v) && v@.len() == 0)),
                MessageView::NotInterested => !final(self).them.is_interested && (r matches Ok(v) && v@.len() == 0)
                    && final(self).me == old(self).me && final(self).to_request == old(self).to_request
                    && final(self).them.requests == old(self).them.requests,
                MessageView::Have(i) => final(self).them.has_pieces@ == old(self).them.has_pieces@.update(i as int, true)
                    && (!old(self).cat_status ==> (r matches Ok(v) && v@.len() == 0)
                        && final(self).me == old(self).me && final(self).to_request == old(self).to_request)
                    && (old(self).cat_status ==> final(self).me.is_choked == old(self).me.is_choked
                        && final(self).me.is_interested == wants_blocks(final(self))
                        && piece_taken(final(self).to_request@, final(self).me.requests@, pieces@, i)
                        && (forall|x: int| 0 <= x < old(self).to_request@.len() ==>
                            has_key(final(self).to_request@, (#[trigger] old(self).to_request@[x]).0, old(self).to_request@[x].1)
                            || requested(final(self).me.requests@, old(self).to_request@[x].0, old(self).to_request@[x].1))
                        && requests_filled(final(self))
                        && (r matches Ok(v) && interest_then_requests(v@, old(self).me.is_interested,
                            final(self).me.is_interested, final(self).me.requests@))),
                MessageView::Bitfield(bytes) => final(self).them.has_pieces@.len() == old(self).them.has_pieces@.len()
                    && (forall|i: int| 0 <= i < final(self).them.has_pieces@.len() ==>
                        final(self).them.has_pieces@[i] == #[trigger] bit_at(bytes, i))
                    && ({
                        let n = old(self).them.has_pieces@.len() as int;
                        let c = old(self).cat_num as int;
                        let listed = old(self).cat_num_list@ + marked_between(final(self).them.has_pieces@, 0, if n < c { n } else { c });
                        let pops = if old(self).request_size < listed.len() { old(self).request_size as int } else { listed.len() as int };
                        &&& final(self).cat_num_list@ == listed.take(listed.len() - pops)
                        &&& final(self).un_cat_num_list@ == old(self).un_cat_num_list@ + marked_between(final(self).them.has_pieces@, c, n)
                        &&& forall|j: int| listed.len() - pops <= j < listed.len() ==>
                            piece_taken(final(self).to_request@, final(self).me.requests@, pieces@, #[trigger] listed[j] as u32)
                    })
                    && final(self).me.is_choked == old(self).me.is_choked
                    && final(self).me.is_interested == wants_blocks(final(self))
                    && (forall|x: int| 0 <= x < old(self).to_request@.len() ==>
                        has_key(final(self).to_request@, (#[trigger] old(self).to_request@[x]).0, old(self).to_request@[x].1)
                        || requested(final(self).me.requests@, old(self).to_request@[x].0, old(self).to_request@[x].1))
                    && requests_filled(final(self))
                    && (r matches Ok(v) && interest_then_requests(v@, old(self).me.is_interested,
                        final(self).me.is_interested, final(self).me.requests@)),
                MessageView::Request(p, o, l) => (requested(final(self).them.requests@, p, o / BLOCK_SIZE)
                    || (r matches Ok(v) && uploads(v@, p, o / BLOCK_SIZE)))
                    && final(self).me == old(self).me && final(self).to_request == old(self).to_request
                    && ({
                        let q = if requested(old(self).them.requests@, p, o / BLOCK_SIZE) {
                            old(self).them.requests@
                        } else {
                            old(self).them.requests@.push(RequestMetadata { piece_index: p, block_index: o / BLOCK_SIZE, offset: o, block_length: l })
                        };
                        let go = !old(self).upload_in_progress && !old(self).them.is_choked && old(self).them.is_interested;
                        &&& go ==> final(self).upload_in_progress && final(self).them.requests@ == q.drop_first()
                            && (r matches Ok(v) && v@ == seq![Effect::Upload(q[0])])
                        &&& !go ==> final(self).upload_in_progress == old(self).upload_in_progress
                            && final(self).them.requests@ == q && (r matches Ok(v) && v@.len() == 0)
                    }),
                MessageView::Piece(p, o, data) => final(self).download_size == old(self).download_size + data.len()
                    && final(self).me.is_choked == old(self).me.is_choked
                    && answered(old(self).me.requests@, old(self).to_request@, final(self).me.requests@, p, o / BLOCK_SIZE)
                    && final(self).me.is_interested == (others_out(old(self).me.requests@, p, o / BLOCK_SIZE)
                        || old(self).to_request@.len() > 0)
                    && requests_filled(final(self))
                    && (forall|x: (u32, u32, u32)| #[trigger] old(self).to_request@.contains(x) ==>
                        kept_block(x, final(self).to_request@, final(self).me.requests@))
                    && (r matches Ok(v) && v@.len() > 0 && stores(v@[0], p, o / BLOCK_SIZE, data)
                        && interest_then_requests(v@.drop_first(), old(self).me.is_interested,
                            final(self).me.is_interested, final(self).me.requests@)),
                MessageView::Cancel(p, o, _) => (forall|i: int| 0 <= i < final(self).them.requests@.len() ==>
                    !names(#[trigger] final(self).them.requests@[i], p, o / BLOCK_SIZE))
                    && (forall|i: int| 0 <= i < old(self).them.requests@.len()
                        && !names(#[trigger] old(self).them.requests@[i], p, o / BLOCK_SIZE) ==>
                        final(self).them.requests@.contains(old(self).them.requests@[i]))
                    && (forall|i: int| 0 <= i < final(self).them.requests@.len() ==>
                        old(self).them.requests@.contains(#[trigger] final(self).them.requests@[i]))
                    && final(self).me == old(self).me && final(self).to_request == old(self).to_request
                    && (r matches Ok(v) && v@.len() == 0),
                MessageView::KeepAlive => final(self).cat_num == pieces@.len()
                    && final(self).me.has_pieces@.len() == (if pieces@.len() < num_pieces { num_pieces as int } else { pieces@.len() as int })
                    && (forall|i: int| 0 <= i < pieces@.len() ==> final(self).me.has_pieces@[i] == (#[trigger] pieces@[i]).is_complete)
                    && (forall|i: int| pieces@.len() <= i < final(self).me.has_pieces@.len() ==> !#[trigger] final(self).me.has_pieces@[i])
                    && final(self).me.is_choked == old(self).me.is_choked
                    && final(self).me.is_interested == wants_blocks(final(self))
                    && (forall|x: int| 0 <= x < old(self).to_request@.len() ==>
                        has_key(final(self).to_request@, (#[trigger] old(self).to_request@[x]).0, old(self).to_request@[x].1)
                        || requested(final(self).me.requests@, old(self).to_request@[x].0, old(self).to_request@[x].1))
                    && (pieces@.len() >= num_pieces ==> final(self).cat_num_list@.len() == 0 && final(self).un_cat_num_list@.len() == 0
                        && forall|i: int| 0 <= i < pieces@.len() && #[trigger] old(self).them.has_pieces@[i] ==>
                            piece_taken(final(self).to_request@, final(self).me.requests@, pieces@, i as u32))
                    && (pieces@.len() < num_pieces ==>
                        final(self).cat_num_list@ == marked_between(old(self).them.has_pieces@, 0, pieces@.len() as int)
                        && final(self).un_cat_num_list@ == marked_between(old(self).them.has_pieces@, pieces@.len() as int, num_pieces as int)
                        && forall|j: int| old(self).cat_num_list@.len() - cat_pops(old(self)) <= j < old(self).cat_num_list@.len() ==>
                            piece_taken(final(self).to_request@, final(self).me.requests@, pieces@, #[trigger] old(self).cat_num_list@[j] as u32))
                    && requests_filled(final(self))
                    && (r matches Ok(v) && interest_then_requests(v@, old(self).me.is_interested,
                        final(self).me.is_interested, final(self).me.requests@)),
                MessageView::Port => true,
            },
    {
        let mut out: Vec<Effect> = Vec::new();
        match message {
            Message::Choke => {
                self.me.is_choked = true;
            },
            Message::Unchoke => {
                if self.me.is_choked {
                    self.me.is_choked = false;
                    self.request_more_blocks(&mut out);
                }
            },
            Message::Interested => {
                self.them.is_interested = true;
                self.unchoke_them(&mut out);
            },
            Message::NotInterested => {
                self.them.is_interested = false;
            },
            Message::Have(have_index) => {
                self.them.has_pieces.set(have_index as usize, true);
                if self.cat_status {
                    self.queue_blocks(have_index, pieces);
                    let ghost q1 = self.to_request@;
                    self.update_and_request(&mut out);
                    proof {
                        let q0 = old(self).to_request@;
                        assert(out@.skip(0) =~= out@);
                        assert forall|x: int| 0 <= x < q0.len() implies
                            has_key(self.to_request@, (#[trigger] q0[x]).0, q0[x].1)
                            || requested(self.me.requests@, q0[x].0, q0[x].1) by {
                            lemma_key_taken(q1, self.to_request@, self.me.requests@, q0[x].0, q0[x].1);
                        }
                        lemma_piece_taken(q1, old(self).me.requests@, self.to_request@, self.me.requests@, pieces@, have_index);
                    }
                }
            },
            Message::Bitfield(bytes) => {
                let n = self.them.has_pieces.len();
                let theirs = pieces_from_bitfield(bytes.as_slice(), n);
                let ghost cl0 = self.cat_num_list@;
                let ghost un0 = self.un_cat_num_list@;
                let mut have_index: usize = 0;
                while have_index < n
                    invariant
                        n == theirs@.len(),
                        have_index <= n,
                        lists_below(self, pieces@.len() as int),
                        self.cat_num <= pieces@.len(),
                        self.wf(),
                        self.me == old(self).me,
                        self.them == old(self).them,
                        self.halt == old(self).halt,
                        self.download_size == old(self).download_size,
                        self.to_request == old(self).to_request,
                        self.request_size == old(self).request_size,
                        self.cat_num == old(self).cat_num,
                        cl0 == old(self).cat_num_list@,
                        un0 == old(self).un_cat_num_list@,
                        self.cat_num_list@ == cl0 + marked_between(theirs@, 0,
                            if have_index < self.cat_num { have_index as int } else { self.cat_num as int }),
                        self.un_cat_num_list@ == un0 + marked_between(theirs@, self.cat_num as int, have_index as int),
                        out@.len() == 0,
                    decreases n - have_index,
                {
                    if theirs[have_index] {
                        if have_index < self.cat_num {
                            self.cat_num_list.push(have_index);
                        } else {
                            self.un_cat_num_list.push(have_index);
                        }
                    }
                    proof {
                        let c = self.cat_num as int;
                        let h = have_index as int;
                        if h < c {
                            assert(marked_between(theirs@, c, h + 1) =~= Seq::<usize>::empty());
                        } else {
                            assert(marked_between(theirs@, 0, if h + 1 < c { h + 1 } else { c })
                                == marked_between(theirs@, 0, if h < c { h } else { c }));
                        }
                    }
                    have_index = have_index + 1;
                }
                self.them.has_pieces = theirs;
                let ghost listed = self.cat_num_list@;
                let ghost pops = cat_pops(self);
                self.queue_from_cat_list(pieces);
                let ghost q1 = self.to_request@;
                self.update_and_request(&mut out);
                proof {
                    let q0 = old(self).to_request@;
                    assert(out@.skip(0) =~= out@);
                    assert forall|x: int| 0 <= x < q0.len() implies
                        has_key(self.to_request@, (#[trigger] q0[x]).0, q0[x].1)
                        || requested(self.me.requests@, q0[x].0, q0[x].1) by {
                        assert(has_key(q1, q0[x].0, q0[x].1));
                        lemma_key_taken(q1, self.to_request@, self.me.requests@, q0[x].0, q0[x].1);
                    }
                    assert forall|j: int| listed.len() - pops <= j < listed.len() implies
                        piece_taken(self.to_request@, self.me.requests@, pieces@, #[trigger] listed[j] as u32) by {
                        lemma_piece_taken(q1, old(self).me.requests@, self.to_request@, self.me.requests@, pieces@, listed[j] as u32);
                    }
                }
            },
            Message::Request(piece_index, offset, length) => {
                let block_index = offset / BLOCK_SIZE;
                self.them.requests.add(piece_index, block_index, offset, length);
                let ghost q0 = self.them.requests@;
                assert(requested(q0, piece_index, block_index)) by {
                    if !requested(old(self).them.requests@, piece_index, block_index) {
                        assert(q0[q0.len() - 1] == RequestMetadata { piece_index, block_index, offset, block_length: length });
                    } else {
                        let k = choose|k: int| 0 <= k < old(self).them.requests@.len() && names(#[trigger] old(self).them.requests@[k], piece_index, block_index);
                        assert(q0[k] == old(self).them.requests@[k]);
                    }
                }
                self.upload_next_block(&mut out);
                proof {
                    let k = choose|k: int| 0 <= k < q0.len() && names(#[trigger] q0[k], piece_index, block_index);
                    if out@.len() > 0 {
                        if k == 0 {
                            assert(out@[0] == Effect::Upload(q0[0]));
                            assert(uploads(out@, piece_index, block_index));
                        } else {
                            assert(self.them.requests@[k - 1] == q0[k]);
                        }
                    }
                }
            },
            Message::Piece(piece_index, offset, data) => {
                self.download_size = self.download_size + data.len();
                let block_index = offset / BLOCK_SIZE;
                let removed = self.me.requests.remove(piece_index, block_index);
                proof {
                    lemma_request_removed(old(self).me.requests@, self.me.requests@, piece_index, block_index, removed);
                }
                let ghost mid = self.me.requests@;
                out.push(Effect::Store { piece_index, block_index, data });
                let ghost e0 = out@[0];
                assert(stores(e0, piece_index, block_index, message@->Piece_2));
                self.update_and_request(&mut out);
                proof {
                    assert(out@[0] == e0) by {
                        assert(out@.take(1)[0] == out@[0]);
                    }
                    assert(out@.drop_first() =~= out@.skip(1));
                    let fin = self.me.requests@;
                    let tr = old(self).to_request@;
                    assert forall|i: int| 0 <= i < old(self).me.requests@.len()
                        && !names(#[trigger] old(self).me.requests@[i], piece_index, block_index)
                        implies fin.contains(old(self).me.requests@[i]) by {
                        let k = choose|k: int| 0 <= k < mid.len() && mid[k] == old(self).me.requests@[i];
                        assert(fin.take(mid.len() as int)[k] == fin[k]);
                    }
                    assert forall|i: int| 0 <= i < fin.len() implies
                        (old(self).me.requests@.contains(#[trigger] fin[i]) && !names(fin[i], piece_index, block_index))
                        || from_queue(fin[i], tr) by {
                        if i < mid.len() {
                            assert(fin.take(mid.len() as int)[i] == fin[i]);
                        }
                    }
                    if !has_key(tr, piece_index, block_index) && requested(fin, piece_index, block_index) {
                        let k = choose|k: int| 0 <= k < fin.len() && names(#[trigger] fin[k], piece_index, block_index);
                        if k < mid.len() {
                            assert(fin.take(mid.len() as int)[k] == fin[k]);
                        } else {
                            let q = fin[k];
                            assert(from_queue(q, tr));
                            let j = choose|j: int| 0 <= j < tr.len() && tr[j] == (q.piece_index, q.block_index, q.block_length);
                            assert(tr[j].0 == piece_index && tr[j].1 == block_index);
                        }
                    }
                }
            },
            Message::Cancel(piece_index, offset, _) => {
                let block_index = offset / BLOCK_SIZE;
                let removed = self.them.requests.remove(piece_index, block_index);
                proof {
                    lemma_request_removed(old(self).them.requests@, self.them.requests@, piece_index, block_index, removed);
                }
            },
            Message::KeepAlive => {
                self.refresh_split(pieces, num_pieces);
                let ghost q1 = self.to_request@;
                self.update_and_request(&mut out);
                proof {
                    let q0 = old(self).to_request@;
                    let r0 = old(self).me.requests@;
                    assert(out@.skip(0) =~= out@);
                    assert forall|x: int| 0 <= x < q0.len() implies
                        has_key(self.to_request@, (#[trigger] q0[x]).0, q0[x].1)
                        || requested(self.me.requests@, q0[x].0, q0[x].1) by {
                        lemma_key_taken(q1, self.to_request@, self.me.requests@, q0[x].0, q0[x].1);
                    }
                    if pieces@.len() >= num_pieces {
                        assert forall|i: int| 0 <= i < pieces@.len() && #[trigger] old(self).them.has_pieces@[i] implies
                            piece_taken(self.to_request@, self.me.requests@, pieces@, i as u32) by {
                            lemma_piece_taken(q1, r0, self.to_request@, self.me.requests@, pieces@, i as u32);
                        }
                    } else {
                        let cl = old(self).cat_num_list@;
                        assert forall|j: int| cl.len() - cat_pops(old(self)) <= j < cl.len() implies
                            piece_taken(self.to_request@, self.me.requests@, pieces@, #[trigger] cl[j] as u32) by {
                            lemma_piece_taken(q1, r0, self.to_request@, self.me.requests@, pieces@, cl[j] as u32);
                        }
                    }
                }
            },
            Message::Port => {
                return Err(Error::UnknownRequestType(Message::Port));
            },
        }
        Ok(out)
    }
}

/// Some effect uploads the block.
pub open spec fn uploads(v: Seq<Effect>, piece_index: u32, block_index: u32) -> bool {
    exists|i: int| 0 <= i < v.len() && match #[trigger] v[i] {
        Effect::Upload(q) => names(q, piece_index, block_index),
        _ => false,
    }
}

/// The effect stores the given data as the given block.
pub open spec fn stores(e: Effect, piece_index: u32, block_index: u32, data: Seq<u8>) -> bool {
    match e {
        Effect::Store { piece_index: p, block_index: b, data: d } => p == piece_index && b == block_index && d@ == data,
        _ => false,
    }
}

/// The (block, length) pairs a piece still needs.
pub open spec fn block_list(piece: Piece) -> Seq<(u32, u32)> {
    if piece.is_complete { Seq::empty() } else { incomplete_of(piece.blocks@) }
}

/// We have a request out for the block.
pub open spec fn requested(s: Seq<RequestMetadata>, piece_index: u32, block_index: u32) -> bool {
    exists|i: int| 0 <= i < s.len() && names(#[trigger] s[i], piece_index, block_index)
}

/// The blocks of a piece are numbered in order and there are as many as
/// the piece's length asks for, as `Piece::new` makes them.
pub open spec fn piece_wf(piece: Piece) -> bool {
    &&& piece.blocks@.len() == crate::download::num_blocks(piece.length)
    &&& forall|i: int| 0 <= i < piece.blocks@.len() ==> (#[trigger] piece.blocks@[i]).index == i
}

proof fn lemma_incomplete_from(blocks: Seq<crate::download::Block>, k: int)
    requires
        0 <= k < incomplete_of(blocks).len(),
    ensures
        exists|j: int| 0 <= j < blocks.len() && (#[trigger] blocks[j]).index == incomplete_of(blocks)[k].0,
    decreases blocks.len(),
{
    if blocks.len() > 0 {
        let rest = incomplete_of(blocks.drop_last());
        if k < rest.len() {
            lemma_incomplete_from(blocks.drop_last(), k);
            let j = choose|j: int| 0 <= j < blocks.drop_last().len() && (#[trigger] blocks.drop_last()[j]).index == rest[k].0;
            assert(blocks[j] == blocks.drop_last()[j]);
        } else {
            assert(blocks[blocks.len() - 1].index == incomplete_of(blocks)[k].0);
        }
    }
}

proof fn lemma_block_list_fits(piece: Piece)
    requires
        piece_wf(piece),
    ensures
        forall|k: int| 0 <= k < block_list(piece).len() ==> (#[trigger] block_list(piece)[k]).0 * BLOCK_SIZE <= u32::MAX,
{
    assert forall|k: int| 0 <= k < block_list(piece).len() implies (#[trigger] block_list(piece)[k]).0 * BLOCK_SIZE <= u32::MAX by {
        lemma_incomplete_from(piece.blocks@, k);
        let j = choose|j: int| 0 <= j < piece.blocks@.len() && (#[trigger] piece.blocks@[j]).index == incomplete_of(piece.blocks@)[k].0;
        let n = crate::download::num_blocks(piece.length);
        assert(j < n);
        assert(j * BLOCK_SIZE <= u32::MAX) by (nonlinear_arith)
            requires
                0 <= j < n,
                n == (piece.length + BLOCK_SIZE - 1) / (BLOCK_SIZE as int),
                piece.length <= u32::MAX,
                BLOCK_SIZE == 16384,
        ;
    }
}

proof fn lemma_incomplete_len(blocks: Seq<crate::download::Block>)
    ensures
        incomplete_of(blocks).len() <= blocks.len(),
    decreases blocks.len(),
{
    if blocks.len() > 0 {
        lemma_incomplete_len(blocks.drop_last());
    }
}


/// Whether every index in the list is below `n`.
fn all_below(list: &Vec<usize>, n: usize) -> (r: bool)
    ensures
        r == forall|i: int| 0 <= i < list@.len() ==> (#[trigger] list@[i]) < n,
{
    let mut i: usize = 0;
    while i < list.len()
        invariant
            i <= list@.len(),
            forall|j: int| 0 <= j < i ==> (#[trigger] list@[j]) < n,
        decreases list@.len() - i,
    {
        if list[i] >= n {
            return false;
        }
        i = i + 1;
    }
    true
}

/// Whether the blocks of a piece are as `Piece::new` makes them.
fn piece_blocks_ok(piece: &Piece) -> (r: bool)
    ensures
        r == (piece_wf(*piece) && piece.blocks@.len() < i32::MAX),
{
    let n: u64 = (piece.length as u64 + BLOCK_SIZE as u64 - 1) / BLOCK_SIZE as u64;
    if piece.blocks.len() as u64 != n || piece.blocks.len() >= 0x7fff_ffff {
        return false;
    }
    let mut i: usize = 0;
    while i < piece.blocks.len()
        invariant
            i <= piece.blocks@.len(),
            forall|j: int| 0 <= j < i ==> (#[trigger] piece.blocks@[j]).index == j,
        decreases piece.blocks@.len() - i,
    {
        if piece.blocks[i].index as u64 != i as u64 {
            return false;
        }
        i = i + 1;
    }
    true
}

/// Whether the pieces are as `Piece::new` makes them.
pub fn pieces_well_formed(pieces: &Vec<Piece>) -> (r: bool)
    ensures
        r == pieces_ok(pieces@),
{
    if pieces.len() as u64 > 0xffff_ffff {
        return false;
    }
    let mut i: usize = 0;
    while i < pieces.len()
        invariant
            i <= pieces@.len(),
            forall|j: int| 0 <= j < i ==> piece_wf(#[trigger] pieces@[j]) && pieces@[j].blocks@.len() < i32::MAX,
        decreases pieces@.len() - i,
    {
        if !piece_blocks_ok(&pieces[i]) {
            return false;
        }
        i = i + 1;
    }
    true
}

impl PeerConnection {
    /// Whether `process` can handle the event in this state: the pieces are
    /// well formed, the split pieces waiting name pieces, and the event
    /// indexes nothing out of range. Where it does not hold, the event
    /// would index past the end of a list.
    pub fn accepts(&self, ipc: &IPC, pieces: &Vec<Piece>, num_pieces: u32) -> (r: bool)
        ensures
            r == (pieces_ok(pieces@) && lists_below(self, pieces@.len() as int) && event_ok(self, *ipc, pieces@, num_pieces)),
    {
        if !pieces_well_formed(pieces) || !all_below(&self.cat_num_list, pieces.len()) {
            return false;
        }
        match ipc {
            IPC::Message(m) => match m {
                Message::Have(i) => (*i as usize) < self.them.has_pieces.len() && (!self.cat_status || (*i as usize) < pieces.len()),
                Message::Bitfield(bytes) => (self.them.has_pieces.len() as u128) <= 8 * (bytes.len() as u128) && self.cat_num <= pieces.len(),
                Message::Piece(_, _, data) => data.len() <= usize::MAX - self.download_size,
                Message::KeepAlive => self.them.has_pieces.len() >= pieces.len() && self.them.has_pieces.len() as u64 >= num_pieces as u64,
                _ => true,
            },
            IPC::PieceComplete(p) => (*p as usize) < self.me.has_pieces.len(),
            IPC::CatComplete => all_below(&self.un_cat_num_list, pieces.len()),
            _ => true,
        }
    }
}
} // verus!
