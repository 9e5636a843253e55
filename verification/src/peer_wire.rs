use vstd::prelude::*;

use crate::sha::{InfoHash, PeerId, hash_eq};
use crate::utracker::PeerAddr;
use crate::wire::{Message, MessageView, be_u32, u32_be, lemma_be_u32_roundtrip, bytes_to_u32, u32_to_bytes, frame_decodable, is_frame_decodable,
    spec_decode_frame, spec_serialize, spec_payload};

verus! {

/// Bytes of the length prefix of every peer wire message.
pub const MESSAGE_LENGTH_LEN_BYTES: usize = 4;

/// Message id of a BEP 10 extended message.
pub const EXTENDED_MESSAGE_ID: u8 = 20;

/// A peer connection: its address, its id, and the torrent.
#[derive(Debug, Clone, Copy)]
pub struct PeerInfo {
    pub addr: PeerAddr,
    pub pid: PeerId,
    pub hash: InfoHash,
}

/// Two peer infos name the same connection.
pub open spec fn same_peer(a: PeerInfo, b: PeerInfo) -> bool {
    a.addr == b.addr && a.pid@ == b.pid@ && a.hash@ == b.hash@
}

/// Compares two peer infos field by field.
pub fn peer_info_eq(a: &PeerInfo, b: &PeerInfo) -> (r: bool)
    ensures
        r == same_peer(*a, *b),
{
    a.addr == b.addr && hash_eq(&a.pid, &b.pid) && hash_eq(&a.hash, &b.hash)
}

/// A message a peer manager can send on its own to keep a connection
/// alive.
pub trait ManagedMessage: Sized {
    /// The keep-alive message.
    fn keep_alive() -> (r: Self);

    /// Whether this is the keep-alive message.
    fn is_keep_alive(&self) -> bool;
}

impl ManagedMessage for Message {
    fn keep_alive() -> (r: Message)
        ensures
            r@ == MessageView::KeepAlive,
    {
        Message::KeepAlive
    }

    fn is_keep_alive(&self) -> (r: bool)
        ensures
            r == (self@ is KeepAlive),
    {
        match self {
            Message::KeepAlive => true,
            _ => false,
        }
    }
}

/// The keep-alive message of the peer wire protocol, and its test.
pub fn wire_keep_alive() -> (r: Message)
    ensures
        r@ == MessageView::KeepAlive,
{
    Message::KeepAlive
}

/// Whether a peer wire message is the keep-alive message.
pub fn wire_is_keep_alive(m: &Message) -> (r: bool)
    ensures
        r == (m@ is KeepAlive),
{
    match m {
        Message::KeepAlive => true,
        _ => false,
    }
}

/// Identifier a peer manager gives a message it sends.
pub type MessageId = u64;

/// Requests to a peer manager.
#[derive(Debug)]
pub enum IPeerManagerMessage<S> {
    /// Manage the peer over the given stream.
    AddPeer(PeerInfo, S),
    /// Drop the peer.
    RemovePeer(PeerInfo),
    /// Send a message to the peer.
    SendMessage(PeerInfo, MessageId, Message),
}

/// Events from a peer manager.
#[derive(Debug)]
pub enum OPeerManagerMessage {
    PeerAdded(PeerInfo),
    PeerRemoved(PeerInfo),
    SentMessage(PeerInfo, MessageId),
    ReceivedMessage(PeerInfo, Message),
    PeerDisconnect(PeerInfo),
    PeerError(PeerInfo, std::io::Error),
}

// ---------------------------------------------------------------------------
// Extended handshakes.

/// What a BEP 10 extended handshake tells of the extensions a side
/// supports: the message id it assigned to `ut_metadata`, if any.
#[derive(Debug, Clone, Copy, PartialEq, Eq, Structural)]
pub struct ExtendedMessage {
    pub ut_metadata_id: Option<u8>,
}

impl ExtendedMessage {
    /// The id assigned to `ut_metadata`.
    pub fn query_ut_metadata(&self) -> (r: Option<u8>)
        ensures
            r == self.ut_metadata_id,
    {
        self.ut_metadata_id
    }
}

// ---------------------------------------------------------------------------
// Framing.

/// Total length of a message whose first four bytes give the length of
/// the rest; unknown until those four bytes are there.
pub fn bytes_needed(bytes: &[u8]) -> (r: Option<usize>)
    ensures
        bytes@.len() < 4 ==> r is None,
        bytes@.len() >= 4 && 4 + be_u32(bytes@) <= usize::MAX ==> r == Some((4 + be_u32(bytes@)) as usize),
        r matches Some(n) ==> n == 4 + be_u32(bytes@),
{
    if bytes.len() < 4 {
        return None;
    }
    let length = bytes_to_u32(vstd::slice::slice_subrange(bytes, 0, 4));
    assert(bytes@.subrange(0, 4) =~= bytes@.take(4));
    assert(be_u32(bytes@.subrange(0, 4)) == be_u32(bytes@));
    (length as usize).checked_add(MESSAGE_LENGTH_LEN_BYTES)
}

/// Frames peer wire messages and remembers the extended handshakes sent
/// and received on the connection.
pub struct PeerWireMessageCodec {
    our_extended_msg: Option<ExtendedMessage>,
    their_extended_msg: Option<ExtendedMessage>,
}

impl PeerWireMessageCodec {
    pub closed spec fn ours(&self) -> Option<ExtendedMessage> {
        self.our_extended_msg
    }

    pub closed spec fn theirs(&self) -> Option<ExtendedMessage> {
        self.their_extended_msg
    }

    /// A codec before any extended handshake.
    pub fn new() -> (r: PeerWireMessageCodec)
        ensures
            r.ours() is None,
            r.theirs() is None,
    {
        PeerWireMessageCodec { our_extended_msg: None, their_extended_msg: None }
    }

    /// Total length of the next message.
    pub fn bytes_needed(&self, bytes: &[u8]) -> (r: Option<usize>)
        ensures
            bytes@.len() < 4 ==> r is None,
            bytes@.len() >= 4 && 4 + be_u32(bytes@) <= usize::MAX ==> r == Some((4 + be_u32(bytes@)) as usize),
            r matches Some(n) ==> n == 4 + be_u32(bytes@),
    {
        bytes_needed(bytes)
    }

    /// Decodes a whole frame; `None` where the frame cannot be decoded.
    pub fn parse_bytes(&self, frame: &[u8]) -> (r: Option<Message>)
        ensures
            r is Some <==> frame_decodable(frame@),
            r matches Some(m) ==> m@ == spec_decode_frame(frame@),
    {
        if is_frame_decodable(frame) {
            Some(Message::decode_frame(frame))
        } else {
            None
        }
    }

    /// Encodes a message with its length prefix.
    pub fn write_bytes(&self, message: &Message) -> (r: Vec<u8>)
        ensures
            r@ == spec_serialize(message@),
    {
        message.clone_message().serialize()
    }

    /// Number of bytes a message takes on the wire.
    pub fn message_size(&self, message: &Message) -> (r: usize)
        ensures
            r == spec_serialize(message@).len(),
    {
        self.write_bytes(message).len()
    }

    /// Records the extended handshake the peer sent.
    pub fn record_theirs(&mut self, msg: ExtendedMessage)
        ensures
            final(self).theirs() == Some(msg),
            final(self).ours() == old(self).ours(),
    {
        self.their_extended_msg = Some(msg);
    }

    /// Records the extended handshake we sent.
    pub fn record_ours(&mut self, msg: ExtendedMessage)
        ensures
            final(self).ours() == Some(msg),
            final(self).theirs() == old(self).theirs(),
    {
        self.our_extended_msg = Some(msg);
    }

    /// The extended handshake the peer sent.
    pub fn their_extended(&self) -> (r: Option<ExtendedMessage>)
        ensures
            r == self.theirs(),
    {
        self.their_extended_msg
    }

    /// The extended handshake we sent.
    pub fn our_extended(&self) -> (r: Option<ExtendedMessage>)
        ensures
            r == self.ours(),
    {
        self.our_extended_msg
    }
}

impl Message {
    /// A copy of the message.
    pub fn clone_message(&self) -> (r: Message)
        ensures
            r@ == self@,
    {
        match self {
            Message::KeepAlive => Message::KeepAlive,
            Message::Choke => Message::Choke,
            Message::Unchoke => Message::Unchoke,
            Message::Interested => Message::Interested,
            Message::NotInterested => Message::NotInterested,
            Message::Have(i) => Message::Have(*i),
            Message::Bitfield(b) => Message::Bitfield(vstd::slice::slice_to_vec(b.as_slice())),
            Message::Request(i, o, l) => Message::Request(*i, *o, *l),
            Message::Piece(i, o, d) => Message::Piece(*i, *o, vstd::slice::slice_to_vec(d.as_slice())),
            Message::Cancel(i, o, l) => Message::Cancel(*i, *o, *l),
            Message::Port => Message::Port,
        }
    }
}

// ---------------------------------------------------------------------------
// BEP 10 extension messages.

/// A message of no extension protocol: it takes no bytes.
#[derive(Debug, Clone, Copy, PartialEq, Eq, Structural)]
pub struct NullProtocolMessage;

/// Messages of the extension protocols.
#[derive(Debug, PartialEq)]
pub enum PeerExtensionProtocolMessage {
    /// A `ut_metadata` message, as its encoded bytes.
    UtMetadata(Vec<u8>),
    Custom(NullProtocolMessage),
}

/// Why an extension message could not be written or read.
#[derive(Debug, Clone, Copy, PartialEq, Eq, Structural)]
pub enum ExtensionError {
    /// The peer's extended handshake gives no id for `ut_metadata`.
    NoIdMapping,
    /// We send an extension message before our extended handshake.
    SentBeforeExtended,
    /// The peer sent an extension message before its extended handshake.
    ReceivedBeforeExtended,
    /// The frame is shorter than its length says.
    Truncated,
    /// The frame is not an extended message.
    NotExtended,
    /// The extension id is not one we know.
    UnknownId(u8),
}

/// The frame of an extension message: length (two header bytes plus the
/// payload) in big-endian order, the extended message id, the extension's
/// id, then the payload.
pub open spec fn extension_frame(ext_id: u8, payload: Seq<u8>) -> Seq<u8> {
    u32_be((2 + payload.len()) as u32) + seq![EXTENDED_MESSAGE_ID, ext_id] + payload
}

impl PeerExtensionProtocolMessage {
    /// The payload this message writes.
    pub open spec fn payload(&self) -> Seq<u8> {
        match self {
            PeerExtensionProtocolMessage::UtMetadata(m) => m@,
            PeerExtensionProtocolMessage::Custom(_) => Seq::empty(),
        }
    }

    /// Total length of the next extension message.
    pub fn bytes_needed(bytes: &[u8]) -> (r: Option<usize>)
        ensures
            bytes@.len() < 4 ==> r is None,
            bytes@.len() >= 4 && 4 + be_u32(bytes@) <= usize::MAX ==> r == Some((4 + be_u32(bytes@)) as usize),
            r matches Some(n) ==> n == 4 + be_u32(bytes@),
    {
        bytes_needed(bytes)
    }

    /// Size of the message's payload.
    pub fn message_size(&self) -> (r: usize)
        ensures
            r == self.payload().len(),
    {
        match self {
            PeerExtensionProtocolMessage::UtMetadata(m) => m.len(),
            PeerExtensionProtocolMessage::Custom(_) => 0,
        }
    }

    /// Writes the message for a peer whose extended handshake is
    /// `extended`: a `ut_metadata` message is framed with the id the peer
    /// assigned; a custom message writes nothing.
    pub fn write_bytes(&self, extended: &Option<ExtendedMessage>) -> (r: Result<Vec<u8>, ExtensionError>)
        requires
            2 + self.payload().len() <= u32::MAX,
        ensures
            match (self, extended) {
                (PeerExtensionProtocolMessage::UtMetadata(m), Some(e)) => match e.ut_metadata_id {
                    Some(id) => r matches Ok(v) && v@ == extension_frame(id, m@),
                    None => r == Err::<Vec<u8>, ExtensionError>(ExtensionError::NoIdMapping),
                },
                (PeerExtensionProtocolMessage::UtMetadata(_), None) => r == Err::<Vec<u8>, ExtensionError>(ExtensionError::SentBeforeExtended),
                (PeerExtensionProtocolMessage::Custom(_), _) => r matches Ok(v) && v@.len() == 0,
            },
    {
        match (self, extended) {
            (PeerExtensionProtocolMessage::UtMetadata(m), Some(e)) => {
                match e.query_ut_metadata() {
                    Some(id) => {
                        let total_len = (2 + m.len()) as u32;
                        let mut out = u32_to_bytes(total_len);
                        out.push(EXTENDED_MESSAGE_ID);
                        out.push(id);
                        let ghost head = out@;
                        let mut i: usize = 0;
                        while i < m.len()
                            invariant
                                i <= m@.len(),
                                out@ == head + m@.take(i as int),
                            decreases m@.len() - i,
                        {
                            out.push(m[i]);
                            i = i + 1;
                            assert(out@ =~= head + m@.take(i as int));
                        }
                        assert(m@.take(m@.len() as int) =~= m@);
                        assert(out@ =~= extension_frame(id, m@));
                        Ok(out)
                    },
                    None => Err(ExtensionError::NoIdMapping),
                }
            },
            (PeerExtensionProtocolMessage::UtMetadata(_), None) => Err(ExtensionError::SentBeforeExtended),
            (PeerExtensionProtocolMessage::Custom(_), _) => Ok(Vec::new()),
        }
    }

    /// Reads an extension message out of a frame, given the peer's
    /// extended handshake: the frame must be an extended message carrying
    /// the id the handshake gave `ut_metadata`, and hold the whole payload.
    pub fn parse_bytes(frame: &[u8], extended: &Option<ExtendedMessage>) -> (r: Result<PeerExtensionProtocolMessage, ExtensionError>)
        ensures
            extended is None ==> r == Err::<PeerExtensionProtocolMessage, ExtensionError>(ExtensionError::ReceivedBeforeExtended),
            extended matches Some(e) ==> {
                if frame@.len() < 6 || frame@[4] != EXTENDED_MESSAGE_ID || be_u32(frame@) < 2 {
                    r == Err::<PeerExtensionProtocolMessage, ExtensionError>(ExtensionError::NotExtended)
                } else if frame@.len() - 6 < be_u32(frame@) - 2 {
                    r == Err::<PeerExtensionProtocolMessage, ExtensionError>(ExtensionError::Truncated)
                } else if e.ut_metadata_id != Some(frame@[5]) {
                    r == Err::<PeerExtensionProtocolMessage, ExtensionError>(ExtensionError::UnknownId(frame@[5]))
                } else {
                    r matches Ok(PeerExtensionProtocolMessage::UtMetadata(m))
                        && m@ == frame@.subrange(6, 6 + be_u32(frame@) - 2)
                }
            },
    {
        let e = match extended {
            Some(e) => e,
            None => {
                return Err(ExtensionError::ReceivedBeforeExtended);
            },
        };
        if frame.len() < 6 || frame[4] != EXTENDED_MESSAGE_ID {
            return Err(ExtensionError::NotExtended);
        }
        let message_len = bytes_to_u32(vstd::slice::slice_subrange(frame, 0, 4));
        assert(frame@.subrange(0, 4) =~= frame@.take(4));
        assert(be_u32(frame@.subrange(0, 4)) == be_u32(frame@));
        if message_len < 2 {
            return Err(ExtensionError::NotExtended);
        }
        let msg_len = (message_len - 2) as usize;
        if frame.len() - 6 < msg_len {
            return Err(ExtensionError::Truncated);
        }
        let message_id = frame[5];
        match e.query_ut_metadata() {
            Some(id) => {
                if id == message_id {
                    let body = vstd::slice::slice_to_vec(vstd::slice::slice_subrange(frame, 6, 6 + msg_len));
                    Ok(PeerExtensionProtocolMessage::UtMetadata(body))
                } else {
                    Err(ExtensionError::UnknownId(message_id))
                }
            },
            None => Err(ExtensionError::UnknownId(message_id)),
        }
    }
}

/// An extension message reads back as written: the frame that
/// `write_bytes` makes for a `ut_metadata` payload under the id the peer
/// assigned is accepted by `parse_bytes`, under the same handshake, as that
/// payload.
pub proof fn lemma_extension_roundtrip(id: u8, payload: Seq<u8>)
    requires
        2 + payload.len() <= u32::MAX,
    ensures
        ({
            let frame = extension_frame(id, payload);
            &&& frame.len() >= 6
            &&& frame[4] == EXTENDED_MESSAGE_ID
            &&& be_u32(frame) == 2 + payload.len()
            &&& frame.len() - 6 >= be_u32(frame) - 2
            &&& frame[5] == id
            &&& frame.subrange(6, 6 + be_u32(frame) - 2) == payload
        }),
{
    let n = (2 + payload.len()) as u32;
    let frame = extension_frame(id, payload);
    lemma_be_u32_roundtrip(n);
    assert(frame.take(4) =~= u32_be(n));
    assert(frame[0] == u32_be(n)[0] && frame[1] == u32_be(n)[1] && frame[2] == u32_be(n)[2] && frame[3] == u32_be(n)[3]);
    assert(frame.subrange(6, 6 + payload.len() as int) =~= payload);
}

} // verus!
