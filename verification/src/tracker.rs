use vstd::prelude::*;

use crate::rng::random_range;
use crate::decoder::{DecoderError, get_bytes, get_u64, u64_field, bytes_field};
use crate::dht::bencode::Bencode;
use crate::dht::decode::{decode, encode, u64_to_decimal, decodable, fits_depth};
use crate::dht::bencode::decimal;
use vstd::string::StringSliceAdditionalSpecFns;

verus! {

// ---------------------------------------------------------------------------
// Peers.

/// The four octets of an IPv4 address.
#[derive(Debug, Clone, Copy, PartialEq, Eq, Structural)]
pub struct Ipv4Addr(pub u8, pub u8, pub u8, pub u8);

/// A peer address as trackers send it: IPv4 octets and a port.
#[derive(Debug, Clone, Copy, PartialEq, Eq, Structural)]
pub struct Peer {
    pub ip: Ipv4Addr,
    pub port: u16,
}

/// The peer that six compact bytes describe: four octets, then the port
/// in network byte order.
pub open spec fn peer_of(v: Seq<u8>) -> Peer {
    Peer { ip: Ipv4Addr(v[0], v[1], v[2], v[3]), port: (v[4] as int * 256 + v[5] as int) as u16 }
}

/// The peers of a compact list: one per whole six byte chunk.
pub open spec fn peers_of(v: Seq<u8>) -> Seq<Peer> {
    Seq::new((v.len() / 6) as nat, |i: int| peer_of(v.subrange(6 * i, 6 * i + 6)))
}

impl Peer {
    /// The local peer on the default port.
    pub fn defalut() -> (r: Peer)
        ensures
            r.ip == Ipv4Addr(127, 0, 0, 1),
            r.port == 6881,
    {
        Peer { ip: Ipv4Addr(127, 0, 0, 1), port: 6881 }
    }

    /// Reads a peer from six compact bytes.
    pub fn from_bytes(v: &[u8]) -> (r: Peer)
        requires
            v@.len() >= 6,
        ensures
            r == peer_of(v@),
    {
        let port = (v[4] as u16) * 256 + (v[5] as u16);
        Peer { ip: Ipv4Addr(v[0], v[1], v[2], v[3]), port }
    }

    /// Reads every whole six byte chunk as a peer; trailing bytes are
    /// ignored.
    pub fn list_from_bytes(v: &[u8]) -> (r: Vec<Peer>)
        ensures
            r@ == peers_of(v@),
    {
        let mut peers: Vec<Peer> = Vec::new();
        let count = v.len() / 6;
        let mut i: usize = 0;
        while i < count
            invariant
                count == v@.len() / 6,
                i <= count,
                peers@.len() == i,
                forall|k: int| 0 <= k < i ==> peers@[k] == peer_of(#[trigger] v@.subrange(6 * k, 6 * k + 6)),
            decreases count - i,
        {
            let vl = v.len();
            assert(6 * i + 6 <= vl) by (nonlinear_arith)
                requires
                    i < count,
                    count == vl / 6,
            ;
            let chunk = vstd::slice::slice_subrange(v, 6 * i, 6 * i + 6);
            peers.push(Peer::from_bytes(chunk));
            i = i + 1;
        }
        assert(peers@ =~= peers_of(v@));
        peers
    }
}

// ---------------------------------------------------------------------------
// Tracker responses.

/// What a tracker answered to an announce.
#[derive(Debug, PartialEq, Clone)]
pub struct TrackerResponse {
    pub interval: u32,
    pub min_interval: Option<u32>,
    pub complete: Option<u32>,
    pub incomplete: Option<u32>,
    pub peers_u8: Option<Vec<u8>>,
    pub peers: Option<Vec<Peer>>,
    /// The tracker answered with its error placeholder.
    pub is_bad: Option<bool>,
}

impl TrackerResponse {
    /// The response used for UDP trackers, before its peers are filled in.
    pub fn default() -> (r: TrackerResponse)
        ensures
            r.interval == 1,
            r.min_interval is None,
            r.complete == Some(3u32),
            r.incomplete == Some(4u32),
            r.peers_u8 is None,
            r.peers matches Some(p) && p@.len() == 0,
            r.is_bad == Some(false),
    {
        TrackerResponse {
            interval: 1,
            min_interval: None,
            complete: Some(3),
            incomplete: Some(4),
            peers_u8: None,
            peers: Some(Vec::new()),
            is_bad: Some(false),
        }
    }

    /// A response holding the one peer the bytes describe.
    pub fn new(bytes: &[u8]) -> (r: TrackerResponse)
        requires
            bytes@.len() >= 6,
        ensures
            r.interval == 1,
            r.min_interval is None,
            r.complete == Some(3u32),
            r.incomplete == Some(4u32),
            r.peers_u8 is None,
            r.peers matches Some(p) && p@ == seq![peer_of(bytes@)],
            r.is_bad == Some(false),
    {
        let mut peers: Vec<Peer> = Vec::new();
        peers.push(Peer::from_bytes(bytes));
        TrackerResponse {
            interval: 1,
            min_interval: None,
            complete: Some(3),
            incomplete: Some(4),
            peers_u8: None,
            peers: Some(peers),
            is_bad: Some(false),
        }
    }

    /// A response built from the fields of a tracker's dictionary. A list
    /// of peers whose last entry is 127.0.0.1 is the tracker's way of
    /// reporting an error: it is dropped and the response marked bad.
    pub fn from_fields(interval: u32, min_interval: Option<u32>, complete: Option<u32>, incomplete: Option<u32>, compact_peers: &[u8]) -> (r: TrackerResponse)
        requires
            compact_peers@.len() >= 6,
            compact_peers@.len() % 6 == 0,
        ensures
            r.interval == interval,
            r.min_interval == min_interval,
            r.complete == complete,
            r.incomplete == incomplete,
            r.peers_u8 is None,
            ({
                let all = peers_of(compact_peers@);
                let bad = all.last().ip == Ipv4Addr(127, 0, 0, 1);
                &&& r.is_bad == Some(bad)
                &&& r.peers matches Some(p) && p@ == (if bad { Seq::empty() } else { all })
            }),
    {
        let (peers, is_bad) = peers_from_compact(compact_peers);
        TrackerResponse {
            interval,
            min_interval,
            complete,
            incomplete,
            peers_u8: None,
            peers: Some(peers),
            is_bad: Some(is_bad),
        }
    }
}

/// Splits compact peers; when the last one is 127.0.0.1 the list is the
/// tracker's error placeholder and comes back empty, flagged bad.
pub fn peers_from_compact(v: &[u8]) -> (r: (Vec<Peer>, bool))
    requires
        v@.len() >= 6,
        v@.len() % 6 == 0,
    ensures
        ({
            let all = peers_of(v@);
            let bad = all.last().ip == Ipv4Addr(127, 0, 0, 1);
            &&& r.1 == bad
            &&& r.0@ == (if bad { Seq::empty() } else { all })
        }),
{
    let mut peers = Peer::list_from_bytes(v);
    let last = peers.pop().unwrap();
    if last.ip == Ipv4Addr(127, 0, 0, 1) {
        (Vec::new(), true)
    } else {
        peers.push(last);
        assert(peers@ =~= peers_of(v@));
        (peers, false)
    }
}

/// A number field that must fit in 32 bits.
fn get_u32(d: &Vec<(Vec<u8>, Bencode)>, key: &[u8]) -> (r: Result<Option<u32>, DecoderError>)
    ensures
        match u64_field(d@, key@) {
            Ok(Some(v)) => if v <= u32::MAX { r == Ok::<Option<u32>, DecoderError>(Some(v as u32)) } else {
                r == Err::<Option<u32>, DecoderError>(DecoderError::NotANumber) },
            Ok(None) => r == Ok::<Option<u32>, DecoderError>(None),
            Err(e) => r == Err::<Option<u32>, DecoderError>(e),
        },
{
    match get_u64(d, key)? {
        Some(v) => if v <= 0xffff_ffff { Ok(Some(v as u32)) } else { Err(DecoderError::NotANumber) },
        None => Ok(None),
    }
}

/// `peers`.
pub open spec fn key_peers() -> Seq<u8> { seq![0x70u8, 0x65, 0x65, 0x72, 0x73] }
/// `interval`.
pub open spec fn key_interval() -> Seq<u8> { seq![0x69u8, 0x6e, 0x74, 0x65, 0x72, 0x76, 0x61, 0x6c] }

/// `min interval`.
pub open spec fn key_min_interval() -> Seq<u8> { seq![0x6du8, 0x69, 0x6e, 0x20, 0x69, 0x6e, 0x74, 0x65, 0x72, 0x76, 0x61, 0x6c] }
/// `complete`.
pub open spec fn key_complete() -> Seq<u8> { seq![0x63u8, 0x6f, 0x6d, 0x70, 0x6c, 0x65, 0x74, 0x65] }
/// `incomplete`.
pub open spec fn key_incomplete() -> Seq<u8> { seq![0x69u8, 0x6e, 0x63, 0x6f, 0x6d, 0x70, 0x6c, 0x65, 0x74, 0x65] }

/// The number field reads as a number that fits in 32 bits; when it is
/// optional, also when it is missing.
pub open spec fn u32_ok(d: Seq<(Vec<u8>, Bencode)>, key: Seq<u8>, required: bool) -> bool {
    match u64_field(d, key) {
        Ok(Some(v)) => v <= u32::MAX,
        Ok(None) => !required,
        Err(_) => false,
    }
}

/// The 32 bit field was read into `o`.
pub open spec fn u32_read(o: Option<u32>, d: Seq<(Vec<u8>, Bencode)>, key: Seq<u8>) -> bool {
    match o {
        Some(v) => u64_field(d, key) == Ok::<Option<u64>, DecoderError>(Some(v as u64)),
        None => u64_field(d, key) == Ok::<Option<u64>, DecoderError>(None),
    }
}

/// A dictionary that reads as a tracker's answer: compact peers, a whole
/// number of at least one entry, an interval, and counts that are missing
/// or fit in 32 bits.
pub open spec fn tracker_ok(d: Seq<(Vec<u8>, Bencode)>) -> bool {
    &&& bytes_field(d, key_peers()) matches Ok(Some(p)) && p.len() >= 6 && p.len() % 6 == 0
    &&& u32_ok(d, key_interval(), true)
    &&& u32_ok(d, key_min_interval(), false)
    &&& u32_ok(d, key_complete(), false)
    &&& u32_ok(d, key_incomplete(), false)
}

/// The answer was read out of the dictionary; a peer list ending with
/// 127.0.0.1 reads as no peers and a bad answer.
pub open spec fn tracker_read(t: TrackerResponse, d: Seq<(Vec<u8>, Bencode)>) -> bool {
    &&& bytes_field(d, key_peers()) matches Ok(Some(p))
        && t.is_bad == Some(peers_of(p).last().ip == Ipv4Addr(127, 0, 0, 1))
        && (t.peers matches Some(v) && v@ == (if peers_of(p).last().ip == Ipv4Addr(127, 0, 0, 1) { Seq::empty() } else { peers_of(p) }))
    &&& u64_field(d, key_interval()) == Ok::<Option<u64>, DecoderError>(Some(t.interval as u64))
    &&& u32_read(t.min_interval, d, key_min_interval())
    &&& u32_read(t.complete, d, key_complete())
    &&& u32_read(t.incomplete, d, key_incomplete())
    &&& t.peers_u8 is None
}

/// The value is a dictionary that reads as a tracker's answer.
pub open spec fn tracker_value_ok(b: Bencode) -> bool {
    b matches Bencode::Dict(d) && tracker_ok(d@)
}

/// The answer was read out of the value.
pub open spec fn tracker_value_read(t: TrackerResponse, b: Bencode) -> bool {
    b matches Bencode::Dict(d) && tracker_read(t, d@)
}

impl TrackerResponse {
    /// Reads an HTTP tracker's answer: compact peers and the announce
    /// interval are required, the other counts optional; peers that are not
    /// a whole number of six byte entries are refused.
    pub fn from_bencode(b: &Bencode) -> (r: Result<TrackerResponse, DecoderError>)
        ensures
            !(b is Dict) ==> r == Err::<TrackerResponse, DecoderError>(DecoderError::NotADict),
            r is Ok <==> tracker_value_ok(*b),
            r matches Ok(t) ==> tracker_value_read(t, *b),
    {
        match b {
            Bencode::Dict(d) => {
                let k_peers: [u8; 5] = [0x70, 0x65, 0x65, 0x72, 0x73];
                let k_interval: [u8; 8] = [0x69, 0x6e, 0x74, 0x65, 0x72, 0x76, 0x61, 0x6c];
                let k_min_interval: [u8; 12] = [0x6d, 0x69, 0x6e, 0x20, 0x69, 0x6e, 0x74, 0x65, 0x72, 0x76, 0x61, 0x6c];
                let k_complete: [u8; 8] = [0x63, 0x6f, 0x6d, 0x70, 0x6c, 0x65, 0x74, 0x65];
                let k_incomplete: [u8; 10] = [0x69, 0x6e, 0x63, 0x6f, 0x6d, 0x70, 0x6c, 0x65, 0x74, 0x65];
                assert(k_peers@ =~= key_peers());
                assert(k_interval@ =~= key_interval());
                assert(k_min_interval@ =~= key_min_interval());
                assert(k_complete@ =~= key_complete());
                assert(k_incomplete@ =~= key_incomplete());
                let peers = match get_bytes(d, k_peers.as_slice())? {
                    Some(p) => p,
                    None => {
                        return Err(DecoderError::DoesntContain);
                    },
                };
                if peers.len() < 6 || peers.len() % 6 != 0 {
                    return Err(DecoderError::NotAByteString);
                }
                let interval = match get_u32(d, k_interval.as_slice())? {
                    Some(i) => i,
                    None => {
                        return Err(DecoderError::DoesntContain);
                    },
                };
                let min_interval = get_u32(d, k_min_interval.as_slice())?;
                let complete = get_u32(d, k_complete.as_slice())?;
                let incomplete = get_u32(d, k_incomplete.as_slice())?;
                Ok(TrackerResponse::from_fields(interval, min_interval, complete, incomplete, peers))
            },
            _ => Err(DecoderError::NotADict),
        }
    }

    /// Reads an HTTP tracker's answer from its bytes: they must be the
    /// bencoding of a dictionary that reads as an answer. Bytes that are no
    /// bencoding fail; bytes every reading of which is an answer succeed.
    pub fn parse(bytes: &[u8]) -> (r: Result<TrackerResponse, TrackerResponseError>)
        ensures
            r matches Ok(t) ==> exists|b: Bencode| #[trigger] encode(b) == bytes@ && fits_depth(b, 0)
                && tracker_value_ok(b) && tracker_value_read(t, b),
            !decodable(bytes@) ==> r is Err,
            decodable(bytes@) && (forall|b: Bencode| #[trigger] encode(b) == bytes@ && fits_depth(b, 0) ==> tracker_value_ok(b))
                ==> r is Ok,
    {
        match decode(bytes) {
            Ok(b) => match TrackerResponse::from_bencode(&b) {
                Ok(t) => Ok(t),
                Err(_) => Err(TrackerResponseError::SelfError),
            },
            Err(_) => Err(TrackerResponseError::SelfError),
        }
    }
}

/// Why asking the trackers for peers failed.
#[derive(Debug)]
pub enum TrackerError {
    DecoderError(TrackerResponseError),
    IoError(std::io::Error),
}

/// Why a tracker response could not be read.
#[derive(Debug, PartialEq, Eq, Structural)]
pub enum TrackerResponseError {
    /// The bencoded body could not be decoded.
    SelfError,
}

// ---------------------------------------------------------------------------
// UDP tracker packets.

/// Magic connection id of a UDP tracker connect request.
pub open spec fn protocol_id() -> Seq<u8> {
    seq![0x00u8, 0x00, 0x04, 0x17, 0x27, 0x10, 0x19, 0x80]
}

/// Little-endian bytes of a 32 bit number.
pub open spec fn le_u32(x: u32) -> Seq<u8> {
    seq![(x % 0x100) as u8, ((x / 0x100) % 0x100) as u8, ((x / 0x10000) % 0x100) as u8, (x / 0x1000000) as u8]
}

/// Little-endian bytes of a 64 bit number.
pub open spec fn le_u64(x: u64) -> Seq<u8> {
    le_u32((x % 0x1_0000_0000) as u32) + le_u32((x / 0x1_0000_0000) as u32)
}

/// Little-endian bytes of a 16 bit number.
pub open spec fn le_u16(x: u16) -> Seq<u8> {
    seq![(x % 0x100) as u8, (x / 0x100) as u8]
}

fn u32_le_bytes(x: u32) -> (r: Vec<u8>)
    ensures
        r@ == le_u32(x),
{
    let r = vec![(x % 0x100) as u8, ((x / 0x100) % 0x100) as u8, ((x / 0x10000) % 0x100) as u8, (x / 0x1000000) as u8];
    assert(r@ =~= le_u32(x));
    r
}

fn u64_le_bytes(x: u64) -> (r: Vec<u8>)
    ensures
        r@ == le_u64(x),
{
    let mut r = u32_le_bytes((x % 0x1_0000_0000) as u32);
    let mut hi = u32_le_bytes((x / 0x1_0000_0000) as u32);
    r.append(&mut hi);
    r
}

/// The action field of a connect request and response.
pub open spec fn connect_action() -> Seq<u8> {
    seq![0u8, 0, 0, 0]
}

/// The action field of an announce request and response.
pub open spec fn announce_action() -> Seq<u8> {
    seq![0u8, 0, 0, 1]
}

/// The state of a UDP tracker connect: the magic id, the connect action
/// and our random transaction id.
#[derive(Debug)]
pub struct Ws {
    pub id: [u8; 8],
    pub action: [u8; 4],
    pub conenct_id: [u8; 4],
}

/// Lowest transaction id we draw.
pub const TRANSACTION_ID_LOW: u64 = 100000;

/// Bound (excluded) of the transaction ids we draw.
pub const TRANSACTION_ID_HIGH: u64 = 300000;

impl Ws {
    /// Draws a transaction id between 100000 and 300000.
    pub fn new() -> (r: Ws)
        ensures
            r.id@ == protocol_id(),
            r.action@ == connect_action(),
            exists|t: u32| TRANSACTION_ID_LOW <= t < TRANSACTION_ID_HIGH && r.conenct_id@ == le_u32(t),
    {
        let t = random_range(TRANSACTION_ID_LOW, TRANSACTION_ID_HIGH) as u32;
        Ws::with_transaction_id(t)
    }

    /// The connect state for a given transaction id.
    pub fn with_transaction_id(t: u32) -> (r: Ws)
        ensures
            r.id@ == protocol_id(),
            r.action@ == connect_action(),
            r.conenct_id@ == le_u32(t),
    {
        let id: [u8; 8] = [0x00, 0x00, 0x04, 0x17, 0x27, 0x10, 0x19, 0x80];
        let action: [u8; 4] = [0, 0, 0, 0];
        let c: [u8; 4] = [(t % 0x100) as u8, ((t / 0x100) % 0x100) as u8, ((t / 0x10000) % 0x100) as u8, (t / 0x1000000) as u8];
        assert(id@ =~= protocol_id());
        assert(action@ =~= connect_action());
        assert(c@ =~= le_u32(t));
        Ws { id, action, conenct_id: c }
    }

    /// The connect request: magic id, action, transaction id.
    pub fn get_param(&self) -> (r: Vec<u8>)
        ensures
            r@ == self.id@ + self.action@ + self.conenct_id@,
    {
        let mut param: Vec<u8> = Vec::new();
        append(&mut param, self.id.as_slice());
        append(&mut param, self.action.as_slice());
        append(&mut param, self.conenct_id.as_slice());
        param
    }
}

fn append(v: &mut Vec<u8>, w: &[u8])
    ensures
        final(v)@ == old(v)@ + w@,
{
    let ghost start = v@;
    let mut i: usize = 0;
    while i < w.len()
        invariant
            i <= w@.len(),
            v@ == start + w@.take(i as int),
        decreases w@.len() - i,
    {
        v.push(w[i]);
        i = i + 1;
        assert(v@ =~= start + w@.take(i as int));
    }
    assert(w@.take(w@.len() as int) =~= w@);
}

/// Why a UDP tracker exchange failed.
#[derive(Debug, Clone, Copy, PartialEq, Eq, Structural)]
pub enum UdpTrackerError {
    ConnectFailed,
    HandshakeSendFailed,
    HandshakeTimeout,
    HandshakeLength,
    HandshakeAction,
    HandshakeId,
    AnnounceSendFailed,
    AnnounceTimeout,
    AnnounceLength,
    AnnounceAction,
    AnnounceId,
}

/// Checks a connect response against our request; gives the connection id
/// the tracker assigned, that is what follows the first eight bytes.
pub fn check_connect_response(ws: &Ws, input: &[u8]) -> (r: Result<Vec<u8>, UdpTrackerError>)
    ensures
        input@.len() < 16 ==> r == Err::<Vec<u8>, UdpTrackerError>(UdpTrackerError::HandshakeLength),
        input@.len() >= 16 && input@.subrange(0, 4) != ws.action@ ==> r == Err::<Vec<u8>, UdpTrackerError>(UdpTrackerError::HandshakeAction),
        input@.len() >= 16 && input@.subrange(0, 4) == ws.action@ && input@.subrange(4, 8) != ws.conenct_id@ ==>
            r == Err::<Vec<u8>, UdpTrackerError>(UdpTrackerError::HandshakeId),
        input@.len() >= 16 && input@.subrange(0, 4) == ws.action@ && input@.subrange(4, 8) == ws.conenct_id@ ==>
            (r matches Ok(id) && id@ == input@.subrange(8, input@.len() as int)),
{
    if input.len() < 16 {
        return Err(UdpTrackerError::HandshakeLength);
    }
    if !bytes_eq(vstd::slice::slice_subrange(input, 0, 4), ws.action.as_slice()) {
        return Err(UdpTrackerError::HandshakeAction);
    }
    if !bytes_eq(vstd::slice::slice_subrange(input, 4, 8), ws.conenct_id.as_slice()) {
        return Err(UdpTrackerError::HandshakeId);
    }
    Ok(vstd::slice::slice_to_vec(vstd::slice::slice_subrange(input, 8, input.len())))
}

fn bytes_eq(a: &[u8], b: &[u8]) -> (r: bool)
    ensures
        r == (a@ == b@),
{
    if a.len() != b.len() {
        return false;
    }
    let mut i: usize = 0;
    while i < a.len()
        invariant
            a@.len() == b@.len(),
            i <= a@.len(),
            forall|j: int| 0 <= j < i ==> a@[j] == b@[j],
        decreases a@.len() - i,
    {
        if a[i] != b[i] {
            return false;
        }
        i = i + 1;
    }
    assert(a@ =~= b@);
    true
}

/// The announce request: connection id, announce action, our transaction
/// id, info hash, peer id, downloaded (0), left, uploaded (0), event
/// (started), our IPv4 address, key, two fields set to 1, our port, then
/// the path `/announce`; the numbers are little-endian, as this client
/// sends them.
pub open spec fn announce_spec(connect_id: u32, server_id: Seq<u8>, ip: Seq<u8>, port: u16, info_hash: Seq<u8>,
    peer_id: Seq<u8>, left: u64, key: u32) -> Seq<u8> {
    server_id + announce_action() + le_u32(connect_id) + info_hash + peer_id
        + le_u64(0) + le_u64(left) + le_u64(0) + le_u64(2)
        + ip + le_u32(key) + le_u32(1) + le_u32(1) + le_u16(port)
        + announce_path()
}

/// `/announce`.
pub open spec fn announce_path() -> Seq<u8> {
    seq![0x2fu8, 0x61, 0x6e, 0x6e, 0x6f, 0x75, 0x6e, 0x63, 0x65]
}

/// A compact peer is the four address octets in order, then the port with
/// its high byte first: six bytes written that way read back as that peer,
/// and the i-th peer of a list comes from bytes `6 * i` to `6 * i + 6`.
pub proof fn lemma_compact_peer_read(a: u8, b: u8, c: u8, d: u8, port: u16, v: Seq<u8>, i: int)
    requires
        0 <= i < v.len() / 6,
    ensures
        peer_of(seq![a, b, c, d, (port / 0x100) as u8, (port % 0x100) as u8]) == (Peer { ip: Ipv4Addr(a, b, c, d), port }),
        peers_of(v).len() == v.len() / 6,
        peers_of(v)[i].ip == Ipv4Addr(v[6 * i], v[6 * i + 1], v[6 * i + 2], v[6 * i + 3]),
        peers_of(v)[i].port == v[6 * i + 4] * 0x100 + v[6 * i + 5],
{
    let hi = port / 0x100;
    let lo = port % 0x100;
    assert(hi < 0x100 && lo < 0x100 && hi * 0x100 + lo == port) by (bit_vector)
        requires
            hi == port / 0x100,
            lo == port % 0x100,
    ;
    let w = v.subrange(6 * i, 6 * i + 6);
    assert(w[4] == v[6 * i + 4] && w[5] == v[6 * i + 5]);
    assert(w[4] * 0x100 + w[5] <= 0xffff);
}

/// A compact peer written by the DHT handler reads back, through the
/// tracker's compact reader, as the same address and port: the address is
/// written most significant octet first.
pub proof fn lemma_compact_peer_agrees(ip: u32, port: u16)
    ensures
        peer_of(crate::dht::handler::compact_peer(ip, port)) == (Peer {
            ip: Ipv4Addr((ip / 0x1000000) as u8, ((ip / 0x10000) % 0x100) as u8, ((ip / 0x100) % 0x100) as u8, (ip % 0x100) as u8),
            port,
        }),
        (ip / 0x1000000) * 0x1000000 + ((ip / 0x10000) % 0x100) * 0x10000 + ((ip / 0x100) % 0x100) * 0x100 + ip % 0x100 == ip,
{
    let hi = port / 0x100;
    let lo = port % 0x100;
    assert(hi < 0x100 && lo < 0x100 && hi * 0x100 + lo == port) by (bit_vector)
        requires
            hi == port / 0x100,
            lo == port % 0x100,
    ;
    let b0 = ip / 0x1000000;
    let b1 = (ip / 0x10000) % 0x100;
    let b2 = (ip / 0x100) % 0x100;
    let b3 = ip % 0x100;
    assert(b0 < 0x100 && b1 < 0x100 && b2 < 0x100 && b3 < 0x100
        && b0 * 0x1000000 + b1 * 0x10000 + b2 * 0x100 + b3 == ip) by (bit_vector)
        requires
            b0 == ip / 0x1000000,
            b1 == (ip / 0x10000) % 0x100,
            b2 == (ip / 0x100) % 0x100,
            b3 == ip % 0x100,
    ;
}

/// The query of an HTTP announce, spelled out: `info_hash=` and the
/// percent-encoded info hash, `&peer_id=` and our peer id, `&port=` and our
/// port in decimal, `&uploaded=0&downloaded=0&left=` and what is left in
/// decimal, then `&event=started&numwant=200&compact=1`.
#[verifier::rlimit(60)]
pub proof fn lemma_http_query_layout(info_hash_ascii: Seq<u8>, peer_id: Seq<u8>, port: u16, left: u64)
    ensures
        query_string(http_announce_params(info_hash_ascii, peer_id, port, left)) ==
            seq![0x69u8, 0x6e, 0x66, 0x6f, 0x5f, 0x68, 0x61, 0x73, 0x68, 0x3d] + info_hash_ascii
            + seq![0x26u8, 0x70, 0x65, 0x65, 0x72, 0x5f, 0x69, 0x64, 0x3d] + peer_id
            + seq![0x26u8, 0x70, 0x6f, 0x72, 0x74, 0x3d] + decimal(port as nat)
            + seq![0x26u8, 0x75, 0x70, 0x6c, 0x6f, 0x61, 0x64, 0x65, 0x64, 0x3d] + seq![0x30u8]
            + seq![0x26u8, 0x64, 0x6f, 0x77, 0x6e, 0x6c, 0x6f, 0x61, 0x64, 0x65, 0x64, 0x3d] + seq![0x30u8]
            + seq![0x26u8, 0x6c, 0x65, 0x66, 0x74, 0x3d] + decimal(left as nat)
            + seq![0x26u8, 0x65, 0x76, 0x65, 0x6e, 0x74, 0x3d] + seq![0x73u8, 0x74, 0x61, 0x72, 0x74, 0x65, 0x64]
            + seq![0x26u8, 0x6e, 0x75, 0x6d, 0x77, 0x61, 0x6e, 0x74, 0x3d] + seq![0x32u8, 0x30, 0x30]
            + seq![0x26u8, 0x63, 0x6f, 0x6d, 0x70, 0x61, 0x63, 0x74, 0x3d] + seq![0x31u8],
{
    let ps = http_announce_params(info_hash_ascii, peer_id, port, left);
    let vals = seq![info_hash_ascii, peer_id, decimal(port as nat), seq![0x30u8], seq![0x30u8], decimal(left as nat),
        seq![0x73u8, 0x74, 0x61, 0x72, 0x74, 0x65, 0x64], seq![0x32u8, 0x30, 0x30], seq![0x31u8]];
    let keys = seq![param_info_hash(), param_peer_id(), param_port(), param_uploaded(), param_downloaded(), param_left(),
        param_event(), param_numwant(), param_compact()];
    let lits = seq![
        seq![0x69u8, 0x6e, 0x66, 0x6f, 0x5f, 0x68, 0x61, 0x73, 0x68, 0x3d],
        seq![0x26u8, 0x70, 0x65, 0x65, 0x72, 0x5f, 0x69, 0x64, 0x3d],
        seq![0x26u8, 0x70, 0x6f, 0x72, 0x74, 0x3d],
        seq![0x26u8, 0x75, 0x70, 0x6c, 0x6f, 0x61, 0x64, 0x65, 0x64, 0x3d],
        seq![0x26u8, 0x64, 0x6f, 0x77, 0x6e, 0x6c, 0x6f, 0x61, 0x64, 0x65, 0x64, 0x3d],
        seq![0x26u8, 0x6c, 0x65, 0x66, 0x74, 0x3d],
        seq![0x26u8, 0x65, 0x76, 0x65, 0x6e, 0x74, 0x3d],
        seq![0x26u8, 0x6e, 0x75, 0x6d, 0x77, 0x61, 0x6e, 0x74, 0x3d],
        seq![0x26u8, 0x63, 0x6f, 0x6d, 0x70, 0x61, 0x63, 0x74, 0x3d]];
    assert(ps.len() == 9);
    assert forall|k: int| 0 <= k < 9 implies #[trigger] ps[k] == (keys[k], vals[k]) by {}
    assert(keys[0] + seq![0x3du8] =~= lits[0]);
    assert forall|k: int| 1 <= k < 9 implies seq![0x26u8] + #[trigger] keys[k] + seq![0x3du8] =~= lits[k] by {}
    lemma_query_prefix(ps, keys, vals, lits, 9);
    assert(ps.take(9) =~= ps);
    reveal_with_fuel(joined, 10);
}

/// The first `k` names with their values, each after its separator.
pub open spec fn joined(lits: Seq<Seq<u8>>, vals: Seq<Seq<u8>>, k: int) -> Seq<u8>
    decreases k,
{
    if k <= 0 {
        Seq::empty()
    } else {
        joined(lits, vals, k - 1) + lits[k - 1] + vals[k - 1]
    }
}

/// The query of the first `k` parameters is their separators, names and
/// values in order.
proof fn lemma_query_prefix(ps: Seq<(Seq<u8>, Seq<u8>)>, keys: Seq<Seq<u8>>, vals: Seq<Seq<u8>>, lits: Seq<Seq<u8>>, k: int)
    requires
        1 <= k <= ps.len(),
        ps.len() <= keys.len(),
        ps.len() <= vals.len(),
        ps.len() <= lits.len(),
        forall|j: int| 0 <= j < ps.len() ==> #[trigger] ps[j] == (keys[j], vals[j]),
        keys[0] + seq![0x3du8] == lits[0],
        forall|j: int| 1 <= j < ps.len() ==> seq![0x26u8] + #[trigger] keys[j] + seq![0x3du8] == lits[j],
    ensures
        query_string(ps.take(k)) == joined(lits, vals, k),
    decreases k,
{
    if k == 1 {
        assert(ps.take(1) =~= seq![ps[0]]);
        assert(joined(lits, vals, 0) =~= Seq::<u8>::empty());
        assert(query_string(ps.take(1)) =~= joined(lits, vals, 1));
    } else {
        lemma_query_prefix(ps, keys, vals, lits, k - 1);
        assert(ps.take(k).drop_last() =~= ps.take(k - 1));
        assert(ps.take(k).last() == ps[k - 1]);
        lemma_query_step(query_string(ps.take(k - 1)), joined(lits, vals, k - 1), keys[k - 1], vals[k - 1], lits[k - 1]);
    }
}

/// One more parameter of a query: `&`, its name, `=`, its value.
proof fn lemma_query_step(q: Seq<u8>, t: Seq<u8>, k: Seq<u8>, v: Seq<u8>, lit: Seq<u8>)
    requires
        q == t,
        seq![0x26u8] + k + seq![0x3du8] == lit,
    ensures
        q + seq![0x26u8] + k + seq![0x3du8] + v == t + lit + v,
{
    assert(q + seq![0x26u8] + k + seq![0x3du8] + v =~= t + lit + v);
}

/// Little-endian value of the first four bytes.
pub open spec fn le_value4(s: Seq<u8>) -> int {
    s[0] + s[1] * 0x100 + s[2] * 0x10000 + s[3] * 0x1000000
}

/// Little-endian value of the first eight bytes.
pub open spec fn le_value8(s: Seq<u8>) -> int {
    le_value4(s) + le_value4(s.subrange(4, 8)) * 0x1_0000_0000
}

proof fn lemma_le4(x: u32)
    ensures
        le_u32(x).len() == 4,
        le_value4(le_u32(x)) == x,
{
    let b0 = x % 0x100;
    let b1 = (x / 0x100) % 0x100;
    let b2 = (x / 0x10000) % 0x100;
    let b3 = x / 0x1000000;
    assert(b0 < 0x100 && b1 < 0x100 && b2 < 0x100 && b3 < 0x100
        && b0 + b1 * 0x100 + b2 * 0x10000 + b3 * 0x1000000 == x) by (bit_vector)
        requires
            b0 == x % 0x100,
            b1 == (x / 0x100) % 0x100,
            b2 == (x / 0x10000) % 0x100,
            b3 == x / 0x1000000,
    ;
    let s = le_u32(x);
    assert(s[0] == b0 && s[1] == b1 && s[2] == b2 && s[3] == b3);
}

/// The little-endian encodings are four, eight and two bytes, least
/// significant byte first, and read back as the number.
pub proof fn lemma_le_values(x: u32, y: u64, z: u16)
    ensures
        le_u32(x).len() == 4,
        le_value4(le_u32(x)) == x,
        le_u64(y).len() == 8,
        le_value8(le_u64(y)) == y,
        le_u16(z).len() == 2,
        le_u16(z)[0] + le_u16(z)[1] * 0x100 == z,
{
    lemma_le4(x);
    let lo = y % 0x1_0000_0000;
    let hi = y / 0x1_0000_0000;
    assert(lo < 0x1_0000_0000 && hi < 0x1_0000_0000 && lo + hi * 0x1_0000_0000 == y) by (bit_vector)
        requires
            lo == y % 0x1_0000_0000,
            hi == y / 0x1_0000_0000,
    ;
    lemma_le4(lo as u32);
    lemma_le4(hi as u32);
    assert(le_u64(y).subrange(4, 8) =~= le_u32(hi as u32));
    assert(le_u64(y).subrange(0, 4) =~= le_u32(lo as u32));
    assert(le_value4(le_u64(y)) == le_value4(le_u64(y).subrange(0, 4)));
    let z0 = z % 0x100;
    let z1 = z / 0x100;
    assert(z0 < 0x100 && z1 < 0x100 && z0 + z1 * 0x100 == z) by (bit_vector)
        requires
            z0 == z % 0x100,
            z1 == z / 0x100,
    ;
}

/// The connect request is 16 bytes: the magic protocol id, the connect
/// action (0) and our transaction id, little-endian.
pub proof fn lemma_connect_layout(t: u32)
    ensures
        ({
            let p = protocol_id() + connect_action() + le_u32(t);
            &&& p.len() == 16
            &&& p.subrange(0, 8) == seq![0x00u8, 0x00, 0x04, 0x17, 0x27, 0x10, 0x19, 0x80]
            &&& p.subrange(8, 12) == seq![0u8, 0, 0, 0]
            &&& le_value4(p.subrange(12, 16)) == t
        }),
{
    let p = protocol_id() + connect_action() + le_u32(t);
    lemma_le_values(t, 0, 0);
    assert(p.subrange(0, 8) =~= seq![0x00u8, 0x00, 0x04, 0x17, 0x27, 0x10, 0x19, 0x80]);
    assert(p.subrange(8, 12) =~= seq![0u8, 0, 0, 0]);
    assert(p.subrange(12, 16) =~= le_u32(t));
}

/// The announce request, field by field: the 8 byte connection id the
/// tracker gave, the announce action (1), our transaction id, the 20 byte
/// info hash of the torrent at offset 16, our 20 byte peer id at offset 36,
/// downloaded (0), left, uploaded (0), the event (2, started), our IPv4
/// address, the key, two fields set to 1, our port, then `/announce`.
pub proof fn lemma_announce_layout(connect_id: u32, server_id: Seq<u8>, ip: Seq<u8>, port: u16, info_hash: Seq<u8>,
    peer_id: Seq<u8>, left: u64, key: u32)
    requires
        server_id.len() == 8,
        info_hash.len() == 20,
        peer_id.len() == 20,
        ip.len() == 4,
    ensures
        ({
            let a = announce_spec(connect_id, server_id, ip, port, info_hash, peer_id, left, key);
            &&& a.len() == 115
            &&& a.subrange(0, 8) == server_id
            &&& a.subrange(8, 12) == seq![0u8, 0, 0, 1]
            &&& le_value4(a.subrange(12, 16)) == connect_id
            &&& a.subrange(16, 36) == info_hash
            &&& a.subrange(36, 56) == peer_id
            &&& le_value8(a.subrange(56, 64)) == 0
            &&& le_value8(a.subrange(64, 72)) == left
            &&& le_value8(a.subrange(72, 80)) == 0
            &&& le_value8(a.subrange(80, 88)) == 2
            &&& a.subrange(88, 92) == ip
            &&& le_value4(a.subrange(92, 96)) == key
            &&& le_value4(a.subrange(96, 100)) == 1
            &&& le_value4(a.subrange(100, 104)) == 1
            &&& a[104] + a[105] * 0x100 == port
            &&& a.subrange(106, 115) == seq![0x2fu8, 0x61, 0x6e, 0x6e, 0x6f, 0x75, 0x6e, 0x63, 0x65]
        }),
{
    let a = announce_spec(connect_id, server_id, ip, port, info_hash, peer_id, left, key);
    lemma_le_values(connect_id, 0, port);
    lemma_le_values(key, left, port);
    lemma_le_values(1, 2, port);
    assert(a.subrange(0, 8) =~= server_id);
    assert(a.subrange(8, 12) =~= seq![0u8, 0, 0, 1]);
    assert(a.subrange(12, 16) =~= le_u32(connect_id));
    assert(a.subrange(16, 36) =~= info_hash);
    assert(a.subrange(36, 56) =~= peer_id);
    assert(a.subrange(56, 64) =~= le_u64(0));
    assert(a.subrange(64, 72) =~= le_u64(left));
    assert(a.subrange(72, 80) =~= le_u64(0));
    assert(a.subrange(80, 88) =~= le_u64(2));
    assert(a.subrange(88, 92) =~= ip);
    assert(a.subrange(92, 96) =~= le_u32(key));
    assert(a.subrange(96, 100) =~= le_u32(1));
    assert(a.subrange(100, 104) =~= le_u32(1));
    assert(a.subrange(104, 106) =~= le_u16(port));
    assert(a.subrange(106, 115) =~= seq![0x2fu8, 0x61, 0x6e, 0x6e, 0x6f, 0x75, 0x6e, 0x63, 0x65]);
}

/// Builds the announce request with a key drawn at random.
pub fn announce_param(connect_id: u32, server_id: &[u8], ip: &[u8; 4], port: u16, info_hash: &[u8], peer_id: &[u8], left: u64) -> (r: Vec<u8>)
    ensures
        exists|key: u32| r@ == announce_spec(connect_id, server_id@, ip@, port, info_hash@, peer_id@, left, key),
{
    let key = random_range(0, 0x1_0000_0000) as u32;
    announce_with_key(connect_id, server_id, ip, port, info_hash, peer_id, left, key)
}

/// Builds the announce request with the given key.
pub fn announce_with_key(connect_id: u32, server_id: &[u8], ip: &[u8; 4], port: u16, info_hash: &[u8], peer_id: &[u8], left: u64, key: u32) -> (r: Vec<u8>)
    ensures
        r@ == announce_spec(connect_id, server_id@, ip@, port, info_hash@, peer_id@, left, key),
        server_id@.len() == 8 && info_hash@.len() == 20 && peer_id@.len() == 20 ==> {
            &&& r@.len() == 115
            &&& r@.subrange(0, 8) == server_id@
            &&& le_value4(r@.subrange(12, 16)) == connect_id
            &&& r@.subrange(16, 36) == info_hash@
            &&& r@.subrange(36, 56) == peer_id@
            &&& le_value8(r@.subrange(64, 72)) == left
            &&& r@.subrange(88, 92) == ip@
            &&& le_value4(r@.subrange(92, 96)) == key
            &&& r@[104] + r@[105] * 0x100 == port
        },
{
    proof {
        if server_id@.len() == 8 && info_hash@.len() == 20 && peer_id@.len() == 20 {
            lemma_announce_layout(connect_id, server_id@, ip@, port, info_hash@, peer_id@, left, key);
        }
    }
    let mut announce: Vec<u8> = Vec::new();
    append(&mut announce, server_id);
    let action = vec![0u8, 0, 0, 1];
    append(&mut announce, action.as_slice());
    append(&mut announce, u32_le_bytes(connect_id).as_slice());
    append(&mut announce, info_hash);
    append(&mut announce, peer_id);
    append(&mut announce, u64_le_bytes(0).as_slice());
    append(&mut announce, u64_le_bytes(left).as_slice());
    append(&mut announce, u64_le_bytes(0).as_slice());
    append(&mut announce, u64_le_bytes(2).as_slice());
    append(&mut announce, ip.as_slice());
    append(&mut announce, u32_le_bytes(key).as_slice());
    append(&mut announce, u32_le_bytes(1).as_slice());
    append(&mut announce, u32_le_bytes(1).as_slice());
    let p = vec![(port % 0x100) as u8, (port / 0x100) as u8];
    assert(p@ =~= le_u16(port));
    append(&mut announce, p.as_slice());
    let path = vec![0x2fu8, 0x61, 0x6e, 0x6e, 0x6f, 0x75, 0x6e, 0x63, 0x65];
    append(&mut announce, path.as_slice());
    assert(action@ =~= announce_action());
    assert(path@ =~= announce_path());
    assert(announce@ =~= announce_spec(connect_id, server_id@, ip@, port, info_hash@, peer_id@, left, key));
    announce
}

/// Checks an announce response against our transaction id and reads the
/// peers that follow the 20 byte header.
pub fn parse_announce_response(data: &[u8], connect_id: u32) -> (r: Result<TrackerResponse, UdpTrackerError>)
    ensures
        data@.len() < 20 ==> r matches Err(UdpTrackerError::AnnounceLength),
        data@.len() >= 20 && data@.subrange(0, 4) != announce_action() ==> r matches Err(UdpTrackerError::AnnounceAction),
        data@.len() >= 20 && data@.subrange(0, 4) == announce_action() && data@.subrange(4, 8) != le_u32(connect_id) ==>
            r matches Err(UdpTrackerError::AnnounceId),
        data@.len() >= 20 && data@.subrange(0, 4) == announce_action() && data@.subrange(4, 8) == le_u32(connect_id) ==>
            (r matches Ok(t) && t.interval == 1 && t.is_bad == Some(false)
                && (t.peers matches Some(p) && p@ == peers_of(data@.subrange(20, data@.len() as int)))),
{
    if data.len() < 20 {
        return Err(UdpTrackerError::AnnounceLength);
    }
    let action = vec![0u8, 0, 0, 1];
    assert(action@ =~= announce_action());
    if !bytes_eq(vstd::slice::slice_subrange(data, 0, 4), action.as_slice()) {
        return Err(UdpTrackerError::AnnounceAction);
    }
    let id = u32_le_bytes(connect_id);
    if !bytes_eq(vstd::slice::slice_subrange(data, 4, 8), id.as_slice()) {
        return Err(UdpTrackerError::AnnounceId);
    }
    let peers = Peer::list_from_bytes(vstd::slice::slice_subrange(data, 20, data.len()));
    let mut response = TrackerResponse::default();
    response.peers = Some(peers);
    Ok(response)
}

// ---------------------------------------------------------------------------
// Announce URLs and HTTP queries.

/// How a tracker is reached.
#[derive(Debug, Clone, Copy, PartialEq, Eq, Structural)]
pub enum TrackerKind {
    Udp,
    Http,
    Other,
}

/// `udp`.
pub open spec fn udp_prefix() -> Seq<u8> {
    seq![0x75u8, 0x64, 0x70]
}

/// `http`.
pub open spec fn http_prefix() -> Seq<u8> {
    seq![0x68u8, 0x74, 0x74, 0x70]
}

/// The bytes start with the prefix.
pub open spec fn starts_with(s: Seq<u8>, prefix: Seq<u8>) -> bool {
    prefix.len() <= s.len() && s.subrange(0, prefix.len() as int) == prefix
}

/// A URL starting with `udp` is a UDP tracker, one starting with `http` an
/// HTTP tracker.
pub fn classify_announce(addr: &[u8]) -> (r: TrackerKind)
    ensures
        starts_with(addr@, udp_prefix()) ==> r == TrackerKind::Udp,
        !starts_with(addr@, udp_prefix()) && starts_with(addr@, http_prefix()) ==> r == TrackerKind::Http,
        !starts_with(addr@, udp_prefix()) && !starts_with(addr@, http_prefix()) ==> r == TrackerKind::Other,
{
    let udp = vec![0x75u8, 0x64, 0x70];
    let http = vec![0x68u8, 0x74, 0x74, 0x70];
    assert(udp@ =~= udp_prefix());
    assert(http@ =~= http_prefix());
    if prefix_eq(addr, udp.as_slice()) {
        TrackerKind::Udp
    } else if prefix_eq(addr, http.as_slice()) {
        TrackerKind::Http
    } else {
        TrackerKind::Other
    }
}

fn prefix_eq(s: &[u8], prefix: &[u8]) -> (r: bool)
    ensures
        r == starts_with(s@, prefix@),
{
    if prefix.len() > s.len() {
        return false;
    }
    bytes_eq(vstd::slice::slice_subrange(s, 0, prefix.len()), prefix)
}

/// Removes every occurrence of `pat` from `s`, scanning left to right.
pub open spec fn remove_all(s: Seq<u8>, pat: Seq<u8>) -> Seq<u8>
    decreases s.len(),
{
    if pat.len() == 0 || s.len() == 0 {
        s
    } else if starts_with(s, pat) {
        remove_all(s.subrange(pat.len() as int, s.len() as int), pat)
    } else {
        seq![s[0]] + remove_all(s.subrange(1, s.len() as int), pat)
    }
}

/// `udp://`.
pub open spec fn udp_scheme() -> Seq<u8> {
    seq![0x75u8, 0x64, 0x70, 0x3a, 0x2f, 0x2f]
}

/// The `host:port` of a UDP tracker URL: the URL without any `udp://`,
/// then without any `/announce`.
pub fn udp_host(addr: &[u8]) -> (r: Vec<u8>)
    ensures
        r@ == remove_all(remove_all(addr@, udp_scheme()), announce_path()),
{
    let scheme = vec![0x75u8, 0x64, 0x70, 0x3a, 0x2f, 0x2f];
    let path = vec![0x2fu8, 0x61, 0x6e, 0x6e, 0x6f, 0x75, 0x6e, 0x63, 0x65];
    assert(scheme@ =~= udp_scheme());
    assert(path@ =~= announce_path());
    let a = strip_all(addr, scheme.as_slice());
    strip_all(a.as_slice(), path.as_slice())
}

fn strip_all(s: &[u8], pat: &[u8]) -> (r: Vec<u8>)
    ensures
        r@ == remove_all(s@, pat@),
    decreases s@.len(),
{
    if pat.len() == 0 || s.len() == 0 {
        return vstd::slice::slice_to_vec(s);
    }
    if prefix_eq(s, pat) {
        strip_all(vstd::slice::slice_subrange(s, pat.len(), s.len()), pat)
    } else {
        let mut r: Vec<u8> = Vec::new();
        r.push(s[0]);
        let mut rest = strip_all(vstd::slice::slice_subrange(s, 1, s.len()), pat);
        r.append(&mut rest);
        assert(r@ =~= seq![s@[0]] + remove_all(s@.subrange(1, s@.len() as int), pat@));
        r
    }
}

/// `k=v` pairs joined by `&`.
pub open spec fn query_string(params: Seq<(Seq<u8>, Seq<u8>)>) -> Seq<u8>
    decreases params.len(),
{
    if params.len() == 0 {
        Seq::empty()
    } else if params.len() == 1 {
        params[0].0 + seq![0x3du8] + params[0].1
    } else {
        query_string(params.drop_last()) + seq![0x26u8] + params.last().0 + seq![0x3du8] + params.last().1
    }
}

/// The views of the query parameters.
pub open spec fn params_view(params: Seq<(Vec<u8>, Vec<u8>)>) -> Seq<(Seq<u8>, Seq<u8>)> {
    Seq::new(params.len(), |i: int| (params[i].0@, params[i].1@))
}

/// Writes the parameters as an HTTP query string.
pub fn encode_query_params(params: &Vec<(Vec<u8>, Vec<u8>)>) -> (r: Vec<u8>)
    ensures
        r@ == query_string(params_view(params@)),
{
    let mut out: Vec<u8> = Vec::new();
    let mut i: usize = 0;
    while i < params.len()
        invariant
            i <= params@.len(),
            out@ == query_string(params_view(params@).take(i as int)),
        decreases params@.len() - i,
    {
        let ghost before = out@;
        if i > 0 {
            out.push(0x26);
        }
        append(&mut out, params[i].0.as_slice());
        out.push(0x3d);
        append(&mut out, params[i].1.as_slice());
        proof {
            let pv = params_view(params@);
            assert(pv.take(i + 1).drop_last() =~= pv.take(i as int));
            if i == 0 {
                assert(out@ =~= query_string(pv.take(1)));
            } else {
                assert(out@ =~= query_string(pv.take(i + 1)));
            }
        }
        i = i + 1;
    }
    assert(params_view(params@).take(params@.len() as int) =~= params_view(params@));
    out
}


// ---------------------------------------------------------------------------
// Announcing to the trackers of a torrent.

/// The tracker URL of each tier of the announce list: the last URL of the
/// tier; without a list, the announce URL alone.
pub fn announce_urls(announce: &Option<String>, announce_list: &Option<Vec<Vec<String>>>) -> (r: Vec<String>)
    requires
        announce_list is None ==> announce is Some,
        announce_list matches Some(l) ==> forall|i: int| 0 <= i < l@.len() ==> (#[trigger] l@[i])@.len() > 0,
    ensures
        match announce_list {
            Some(l) => r@.len() == l@.len() && forall|i: int| 0 <= i < l@.len() ==> #[trigger] r@[i] == l@[i]@.last(),
            None => r@.len() == 1 && r@[0] == announce.unwrap(),
        },
{
    match announce_list {
        Some(l) => {
            let mut r: Vec<String> = Vec::new();
            let mut i: usize = 0;
            while i < l.len()
                invariant
                    i <= l@.len(),
                    r@.len() == i,
                    forall|k: int| 0 <= k < l@.len() ==> (#[trigger] l@[k])@.len() > 0,
                    forall|k: int| 0 <= k < i ==> #[trigger] r@[k] == l@[k]@.last(),
                decreases l@.len() - i,
            {
                let tier = &l[i];
                let url = tier[tier.len() - 1].clone();
                r.push(url);
                i = i + 1;
            }
            r
        },
        None => {
            let mut r: Vec<String> = Vec::new();
            match announce {
                Some(a) => r.push(a.clone()),
                None => {},
            }
            r
        },
    }
}

/// `info_hash`.
pub open spec fn param_info_hash() -> Seq<u8> {
    seq![0x69u8, 0x6e, 0x66, 0x6f, 0x5f, 0x68, 0x61, 0x73, 0x68]
}

/// `peer_id`.
pub open spec fn param_peer_id() -> Seq<u8> {
    seq![0x70u8, 0x65, 0x65, 0x72, 0x5f, 0x69, 0x64]
}

/// `port`.
pub open spec fn param_port() -> Seq<u8> {
    seq![0x70u8, 0x6f, 0x72, 0x74]
}

/// `uploaded`.
pub open spec fn param_uploaded() -> Seq<u8> {
    seq![0x75u8, 0x70, 0x6c, 0x6f, 0x61, 0x64, 0x65, 0x64]
}

/// `downloaded`.
pub open spec fn param_downloaded() -> Seq<u8> {
    seq![0x64u8, 0x6f, 0x77, 0x6e, 0x6c, 0x6f, 0x61, 0x64, 0x65, 0x64]
}

/// `left`.
pub open spec fn param_left() -> Seq<u8> {
    seq![0x6cu8, 0x65, 0x66, 0x74]
}

/// `event`.
pub open spec fn param_event() -> Seq<u8> {
    seq![0x65u8, 0x76, 0x65, 0x6e, 0x74]
}

/// `numwant`.
pub open spec fn param_numwant() -> Seq<u8> {
    seq![0x6eu8, 0x75, 0x6d, 0x77, 0x61, 0x6e, 0x74]
}

/// `compact`.
pub open spec fn param_compact() -> Seq<u8> {
    seq![0x63u8, 0x6f, 0x6d, 0x70, 0x61, 0x63, 0x74]
}

/// `started`.
pub open spec fn param_started() -> Seq<u8> {
    seq![0x73u8, 0x74, 0x61, 0x72, 0x74, 0x65, 0x64]
}

/// The query of an HTTP announce, in the order it is sent: the
/// percent-encoded info hash, our peer id, our port, nothing uploaded or
/// downloaded, what is left, the `started` event, 200 peers wanted, compact
/// peers.
pub open spec fn http_announce_params(info_hash_ascii: Seq<u8>, peer_id: Seq<u8>, port: u16, left: u64) -> Seq<(Seq<u8>, Seq<u8>)> {
    seq![
        (param_info_hash(), info_hash_ascii),
        (param_peer_id(), peer_id),
        (param_port(), decimal(port as nat)),
        (param_uploaded(), seq![0x30u8]),
        (param_downloaded(), seq![0x30u8]),
        (param_left(), decimal(left as nat)),
        (param_event(), param_started()),
        (param_numwant(), seq![0x32u8, 0x30, 0x30]),
        (param_compact(), seq![0x31u8]),
    ]
}

/// The URL of an HTTP announce: the tracker's URL, `?`, then the query.
pub fn http_announce_url(addr: &str, info_hash_ascii: &str, peer_id: &str, port: u16, left: u64) -> (r: Vec<u8>)
    ensures
        r@ == addr.spec_bytes() + seq![0x3fu8] + query_string(
            http_announce_params(info_hash_ascii.spec_bytes(), peer_id.spec_bytes(), port, left)),
{
    let mut params: Vec<(Vec<u8>, Vec<u8>)> = Vec::new();
    let key_info_hash: Vec<u8> = vec![0x69u8, 0x6e, 0x66, 0x6f, 0x5f, 0x68, 0x61, 0x73, 0x68];
    assert(key_info_hash@ =~= param_info_hash());
    let value_info_hash: Vec<u8> = vstd::slice::slice_to_vec(info_hash_ascii.as_bytes());
    params.push((key_info_hash, value_info_hash));
    let key_peer_id: Vec<u8> = vec![0x70u8, 0x65, 0x65, 0x72, 0x5f, 0x69, 0x64];
    assert(key_peer_id@ =~= param_peer_id());
    let value_peer_id: Vec<u8> = vstd::slice::slice_to_vec(peer_id.as_bytes());
    params.push((key_peer_id, value_peer_id));
    let key_port: Vec<u8> = vec![0x70u8, 0x6f, 0x72, 0x74];
    assert(key_port@ =~= param_port());
    let value_port: Vec<u8> = u64_to_decimal(port as u64);
    params.push((key_port, value_port));
    let key_uploaded: Vec<u8> = vec![0x75u8, 0x70, 0x6c, 0x6f, 0x61, 0x64, 0x65, 0x64];
    assert(key_uploaded@ =~= param_uploaded());
    let value_uploaded: Vec<u8> = vec![0x30u8];
    assert(value_uploaded@ =~= seq![0x30u8]);
    params.push((key_uploaded, value_uploaded));
    let key_downloaded: Vec<u8> = vec![0x64u8, 0x6f, 0x77, 0x6e, 0x6c, 0x6f, 0x61, 0x64, 0x65, 0x64];
    assert(key_downloaded@ =~= param_downloaded());
    let value_downloaded: Vec<u8> = vec![0x30u8];
    assert(value_downloaded@ =~= seq![0x30u8]);
    params.push((key_downloaded, value_downloaded));
    let key_left: Vec<u8> = vec![0x6cu8, 0x65, 0x66, 0x74];
    assert(key_left@ =~= param_left());
    let value_left: Vec<u8> = u64_to_decimal(left);
    params.push((key_left, value_left));
    let key_event: Vec<u8> = vec![0x65u8, 0x76, 0x65, 0x6e, 0x74];
    assert(key_event@ =~= param_event());
    let value_event: Vec<u8> = vec![0x73u8, 0x74, 0x61, 0x72, 0x74, 0x65, 0x64];
    assert(value_event@ =~= param_started());
    params.push((key_event, value_event));
    let key_numwant: Vec<u8> = vec![0x6eu8, 0x75, 0x6d, 0x77, 0x61, 0x6e, 0x74];
    assert(key_numwant@ =~= param_numwant());
    let value_numwant: Vec<u8> = vec![0x32u8, 0x30, 0x30];
    assert(value_numwant@ =~= seq![0x32u8, 0x30, 0x30]);
    params.push((key_numwant, value_numwant));
    let key_compact: Vec<u8> = vec![0x63u8, 0x6f, 0x6d, 0x70, 0x61, 0x63, 0x74];
    assert(key_compact@ =~= param_compact());
    let value_compact: Vec<u8> = vec![0x31u8];
    assert(value_compact@ =~= seq![0x31u8]);
    params.push((key_compact, value_compact));
    assert(params_view(params@) =~= http_announce_params(info_hash_ascii.spec_bytes(), peer_id.spec_bytes(), port, left));
    let query = encode_query_params(&params);
    let mut url = vstd::slice::slice_to_vec(addr.as_bytes());
    url.push(0x3f);
    append(&mut url, query.as_slice());
    url
}

/// The peers of all tracker responses, in order.
pub open spec fn all_peers(rs: Seq<TrackerResponse>) -> Seq<Peer>
    decreases rs.len(),
{
    if rs.len() == 0 {
        Seq::empty()
    } else {
        all_peers(rs.drop_last()) + rs.last().peers.unwrap()@
    }
}

/// Gathers the peers that the trackers gave.
pub fn collect_peers(responses: &Vec<TrackerResponse>) -> (r: Vec<Peer>)
    requires
        forall|i: int| 0 <= i < responses@.len() ==> (#[trigger] responses@[i]).peers is Some,
    ensures
        r@ == all_peers(responses@),
{
    let mut peers: Vec<Peer> = Vec::new();
    let mut i: usize = 0;
    while i < responses.len()
        invariant
            i <= responses@.len(),
            forall|k: int| 0 <= k < responses@.len() ==> (#[trigger] responses@[k]).peers is Some,
            peers@ == all_peers(responses@.take(i as int)),
        decreases responses@.len() - i,
    {
        proof {
            assert(responses@.take(i + 1).drop_last() =~= responses@.take(i as int));
        }
        match &responses[i].peers {
            Some(list) => {
                let ghost before = peers@;
                let mut j: usize = 0;
                while j < list.len()
                    invariant
                        j <= list@.len(),
                        peers@ == before + list@.take(j as int),
                    decreases list@.len() - j,
                {
                    peers.push(list[j]);
                    j = j + 1;
                    assert(peers@ =~= before + list@.take(j as int));
                }
                assert(list@.take(list@.len() as int) =~= list@);
            },
            None => {},
        }
        i = i + 1;
    }
    assert(responses@.take(responses@.len() as int) =~= responses@);
    peers
}

} // verus!
