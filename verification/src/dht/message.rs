use vstd::prelude::*;
use crate::sha::NodeId;
use crate::dht::bencode::{
    Bencode, BencodeConvertError, dict_get, dict_contains, lookup_and_convert_bytes,
    lookup_and_convert_dict, lookup_and_convert_list, push_encoded_bytes, encoded_bytes,
    bytes_type_name, dict_type_name, list_type_name,
};

verus! {

// ---------------------------------------------------------------------------
// Message keys.

/// `t`: transaction id.
pub open spec fn transaction_id_key() -> Seq<u8> { seq![0x74u8] }
/// `y`: message type.
pub open spec fn message_type_key() -> Seq<u8> { seq![0x79u8] }
/// `q`: a request (and the key of its type).
pub open spec fn request_type_key() -> Seq<u8> { seq![0x71u8] }
/// `r`: a response (and the key of its arguments).
pub open spec fn response_type_key() -> Seq<u8> { seq![0x72u8] }
/// `e`: an error.
pub open spec fn error_type_key() -> Seq<u8> { seq![0x65u8] }
/// `id`: the sender's node id.
pub open spec fn node_id_key() -> Seq<u8> { seq![0x69u8, 0x64] }
/// `nodes`: compact node information.
pub open spec fn nodes_key() -> Seq<u8> { seq![0x6eu8, 0x6f, 0x64, 0x65, 0x73] }
/// `values`: compact peer addresses.
pub open spec fn values_key() -> Seq<u8> { seq![0x76u8, 0x61, 0x6c, 0x75, 0x65, 0x73] }
/// `token`: announce token.
pub open spec fn token_key() -> Seq<u8> { seq![0x74u8, 0x6f, 0x6b, 0x65, 0x6e] }

fn key_t() -> (r: Vec<u8>) ensures r@ == transaction_id_key() {
    let r = vec![0x74u8]; assert(r@ =~= transaction_id_key()); r
}
fn key_y() -> (r: Vec<u8>) ensures r@ == message_type_key() {
    let r = vec![0x79u8]; assert(r@ =~= message_type_key()); r
}
fn key_q() -> (r: Vec<u8>) ensures r@ == request_type_key() {
    let r = vec![0x71u8]; assert(r@ =~= request_type_key()); r
}
fn key_r() -> (r: Vec<u8>) ensures r@ == response_type_key() {
    let r = vec![0x72u8]; assert(r@ =~= response_type_key()); r
}
fn key_id() -> (r: Vec<u8>) ensures r@ == node_id_key() {
    let r = vec![0x69u8, 0x64]; assert(r@ =~= node_id_key()); r
}
fn key_nodes() -> (r: Vec<u8>) ensures r@ == nodes_key() {
    let r = vec![0x6eu8, 0x6f, 0x64, 0x65, 0x73]; assert(r@ =~= nodes_key()); r
}
fn key_values() -> (r: Vec<u8>) ensures r@ == values_key() {
    let r = vec![0x76u8, 0x61, 0x6c, 0x75, 0x65, 0x73]; assert(r@ =~= values_key()); r
}
fn key_token() -> (r: Vec<u8>) ensures r@ == token_key() {
    let r = vec![0x74u8, 0x6f, 0x6b, 0x65, 0x6e]; assert(r@ =~= token_key()); r
}

/// Number of bytes of one compact node entry: id, IPv4 address and port.
pub const COMPACT_NODE_LEN: usize = 26;

/// Number of bytes of one compact peer entry: IPv4 address and port.
pub const COMPACT_PEER_LEN: usize = 6;

// ---------------------------------------------------------------------------
// Errors.

/// Why a DHT message was refused.
#[derive(Debug)]
pub enum DhtError {
    /// A key was missing or held a value of another type.
    Convert(BencodeConvertError),
    /// The node id does not have the length of a hash.
    InvalidNodeIdLength { trans_id: Vec<u8>, len: usize },
    /// The compact nodes are not a whole number of entries.
    InvalidNodesLength { trans_id: Vec<u8>, len: usize },
    /// A compact value is not a byte string.
    NonBytesValue { trans_id: Vec<u8> },
    /// A compact value does not have the length of an IPv4 peer address.
    InvalidValueLength { trans_id: Vec<u8> },
    /// A `get_peers` response carried neither nodes nor values.
    MissingNodesAndValues { trans_id: Vec<u8> },
    /// The message type is none of request, response or error.
    InvalidMessage { code: Vec<u8> },
}

/// The error is the one a failed lookup of `key` for a value of type
/// `expected` produces in `d`.
pub open spec fn is_lookup_error(e: DhtError, d: Seq<(Vec<u8>, Bencode)>, key: Seq<u8>, expected: Seq<u8>) -> bool {
    match dict_get(d, key) {
        None => e matches DhtError::Convert(BencodeConvertError::MissingKey { key: k }) && k@ == key,
        Some(_) => e matches DhtError::Convert(BencodeConvertError::WrongType { key: k, expected_type: t })
            && k@ == key && t@ == expected,
    }
}

/// The value under `key` is a byte string.
pub open spec fn has_bytes(d: Seq<(Vec<u8>, Bencode)>, key: Seq<u8>) -> bool {
    dict_get(d, key) matches Some(Bencode::Bytes(_))
}

/// The byte string under `key`.
pub open spec fn bytes_at(d: Seq<(Vec<u8>, Bencode)>, key: Seq<u8>) -> Seq<u8> {
    match dict_get(d, key) {
        Some(Bencode::Bytes(b)) => b@,
        _ => Seq::empty(),
    }
}

/// The value under `key` is a list.
pub open spec fn has_list(d: Seq<(Vec<u8>, Bencode)>, key: Seq<u8>) -> bool {
    dict_get(d, key) matches Some(Bencode::List(_))
}

/// The list under `key`.
pub open spec fn list_at(d: Seq<(Vec<u8>, Bencode)>, key: Seq<u8>) -> Seq<Bencode> {
    match dict_get(d, key) {
        Some(Bencode::List(l)) => l@,
        _ => Seq::empty(),
    }
}

fn convert<T>(r: Result<T, BencodeConvertError>) -> (o: Result<T, DhtError>)
    ensures
        match r {
            Ok(v) => o == Ok::<T, DhtError>(v),
            Err(e) => o == Err::<T, DhtError>(DhtError::Convert(e)),
        },
{
    match r {
        Ok(v) => Ok(v),
        Err(e) => Err(DhtError::Convert(e)),
    }
}

// ---------------------------------------------------------------------------
// Compact information.

/// Compact IPv4 node information: a whole number of 26 byte entries.
#[derive(Debug, Clone, Copy)]
pub struct CompactNodeInfo<'a> {
    nodes: &'a [u8],
}

impl<'a> CompactNodeInfo<'a> {
    pub closed spec fn bytes(&self) -> Seq<u8> {
        self.nodes@
    }

    /// Accepts the bytes when their length is a multiple of the entry size.
    pub fn new(nodes: &'a [u8]) -> (r: Option<CompactNodeInfo<'a>>)
        ensures
            match r {
                Some(info) => nodes@.len() % 26 == 0 && info.bytes() == nodes@,
                None => nodes@.len() % 26 != 0,
            },
    {
        if nodes.len() % COMPACT_NODE_LEN == 0 {
            Some(CompactNodeInfo { nodes })
        } else {
            None
        }
    }

    /// The raw compact bytes.
    pub fn nodes(&self) -> (r: &'a [u8])
        ensures
            r@ == self.bytes(),
    {
        self.nodes
    }
}

/// Every value is a byte string.
pub open spec fn all_bytes(values: Seq<Bencode>) -> bool {
    forall|i: int| 0 <= i < values.len() ==> (#[trigger] values[i]) is Bytes
}

/// Every value is a byte string of the length of a compact IPv4 peer.
pub open spec fn all_compact_peers(values: Seq<Bencode>) -> bool {
    forall|i: int| 0 <= i < values.len() ==> match #[trigger] values[i] {
        Bencode::Bytes(b) => b@.len() == 6,
        _ => false,
    }
}

/// Compact IPv4 peer addresses, each a 6 byte string.
#[derive(Debug, Clone, Copy)]
pub struct CompactValueInfo<'a> {
    values: &'a [Bencode],
}

impl<'a> CompactValueInfo<'a> {
    pub closed spec fn values(&self) -> Seq<Bencode> {
        self.values@
    }

    /// Accepts the values when each is a 6 byte string.
    pub fn new(values: &'a [Bencode]) -> (r: Option<CompactValueInfo<'a>>)
        ensures
            match r {
                Some(info) => all_compact_peers(values@) && info.values() == values@,
                None => !all_compact_peers(values@),
            },
    {
        let mut i: usize = 0;
        while i < values.len()
            invariant
                i <= values@.len(),
                forall|j: int| 0 <= j < i ==> match #[trigger] values@[j] {
                    Bencode::Bytes(b) => b@.len() == 6,
                    _ => false,
                },
            decreases values@.len() - i,
        {
            match &values[i] {
                Bencode::Bytes(b) => {
                    if b.len() != COMPACT_PEER_LEN {
                        return None;
                    }
                },
                _ => {
                    return None;
                },
            }
            i = i + 1;
        }
        Some(CompactValueInfo { values })
    }
}

// ---------------------------------------------------------------------------
// Validation of response fields.

/// Checks the fields of a response on behalf of one transaction.
pub struct ResponseValidate<'a> {
    trans_id: &'a [u8],
}

impl<'a> ResponseValidate<'a> {
    pub closed spec fn trans_id(&self) -> Seq<u8> {
        self.trans_id@
    }

    pub fn new(trans_id: &'a [u8]) -> (r: ResponseValidate<'a>)
        ensures
            r.trans_id() == trans_id@,
    {
        ResponseValidate { trans_id }
    }

    /// A node id must be exactly 20 bytes.
    pub fn validate_node_id(&self, node_id: &[u8]) -> (r: Result<NodeId, DhtError>)
        ensures
            match r {
                Ok(id) => node_id@.len() == 20 && id@ == node_id@,
                Err(e) => node_id@.len() != 20 && (e matches DhtError::InvalidNodeIdLength { trans_id: t, len }
                    && t@ == self.trans_id() && len == node_id@.len()),
            },
    {
        if node_id.len() != 20 {
            return Err(DhtError::InvalidNodeIdLength {
                trans_id: vstd::slice::slice_to_vec(self.trans_id),
                len: node_id.len(),
            });
        }
        let mut id: NodeId = [0u8; 20];
        let mut i: usize = 0;
        while i < 20
            invariant
                i <= 20,
                node_id@.len() == 20,
                forall|j: int| 0 <= j < i ==> id@[j] == node_id@[j],
            decreases 20 - i,
        {
            id.set(i, node_id[i]);
            i = i + 1;
        }
        assert(id@ =~= node_id@);
        Ok(id)
    }

    /// Compact nodes must be a whole number of 26 byte entries.
    pub fn validate_nodes<'b>(&self, nodes: &'b [u8]) -> (r: Result<CompactNodeInfo<'b>, DhtError>)
        ensures
            match r {
                Ok(info) => nodes@.len() % 26 == 0 && info.bytes() == nodes@,
                Err(e) => nodes@.len() % 26 != 0 && (e matches DhtError::InvalidNodesLength { trans_id: t, len }
                    && t@ == self.trans_id() && len == nodes@.len()),
            },
    {
        match CompactNodeInfo::new(nodes) {
            Some(info) => Ok(info),
            None => Err(DhtError::InvalidNodesLength {
                trans_id: vstd::slice::slice_to_vec(self.trans_id),
                len: nodes.len(),
            }),
        }
    }

    /// Values must all be byte strings, each a 6 byte compact peer.
    pub fn validate_values<'b>(&self, values: &'b [Bencode]) -> (r: Result<CompactValueInfo<'b>, DhtError>)
        ensures
            match r {
                Ok(info) => all_compact_peers(values@) && info.values() == values@,
                Err(e) => if !all_bytes(values@) {
                    e matches DhtError::NonBytesValue { trans_id: t } && t@ == self.trans_id()
                } else {
                    !all_compact_peers(values@)
                        && (e matches DhtError::InvalidValueLength { trans_id: t } && t@ == self.trans_id())
                },
            },
    {
        let mut i: usize = 0;
        while i < values.len()
            invariant
                i <= values@.len(),
                forall|j: int| 0 <= j < i ==> (#[trigger] values@[j]) is Bytes,
            decreases values@.len() - i,
        {
            match &values[i] {
                Bencode::Bytes(_) => {},
                _ => {
                    return Err(DhtError::NonBytesValue { trans_id: vstd::slice::slice_to_vec(self.trans_id) });
                },
            }
            i = i + 1;
        }
        match CompactValueInfo::new(values) {
            Some(info) => Ok(info),
            None => Err(DhtError::InvalidValueLength { trans_id: vstd::slice::slice_to_vec(self.trans_id) }),
        }
    }

    /// Reads and checks the sender's node id of a response dictionary.
    fn lookup_node_id(&self, root: &Vec<(Vec<u8>, Bencode)>) -> (r: Result<NodeId, DhtError>)
        ensures
            node_id_outcome(root@, self.trans_id(), r),
    {
        let key = key_id();
        let bytes = convert(lookup_and_convert_bytes(root, key.as_slice()))?;
        self.validate_node_id(bytes)
    }
}

/// The node id of `d` is a 20 byte string.
pub open spec fn node_id_valid(d: Seq<(Vec<u8>, Bencode)>) -> bool {
    has_bytes(d, node_id_key()) && bytes_at(d, node_id_key()).len() == 20
}

/// The error that reading the node id of `d` gives.
pub open spec fn node_id_error(e: DhtError, d: Seq<(Vec<u8>, Bencode)>, tid: Seq<u8>) -> bool {
    if !has_bytes(d, node_id_key()) {
        is_lookup_error(e, d, node_id_key(), bytes_type_name())
    } else {
        e matches DhtError::InvalidNodeIdLength { trans_id: t, len }
            && t@ == tid && len == bytes_at(d, node_id_key()).len()
    }
}

/// What reading the node id of `d` gives.
pub open spec fn node_id_outcome(d: Seq<(Vec<u8>, Bencode)>, tid: Seq<u8>, r: Result<NodeId, DhtError>) -> bool {
    if node_id_valid(d) {
        r matches Ok(id) && id@ == bytes_at(d, node_id_key())
    } else {
        r matches Err(e) && node_id_error(e, d, tid)
    }
}

// ---------------------------------------------------------------------------
// Responses.

/// Response to a `ping` or an `announce_peer`: both carry only the node id.
#[derive(Debug, Clone, Copy)]
pub struct ActingResponse<'a> {
    trans_id: &'a [u8],
    node_id: NodeId,
}

/// Bencoding of an acting response: the dictionary
/// `{r: {id: node_id}, t: trans_id, y: r}` with its keys in order.
pub open spec fn acting_encoding(trans_id: Seq<u8>, node_id: Seq<u8>) -> Seq<u8> {
    seq![0x64u8]
        + encoded_bytes(response_type_key())
        + seq![0x64u8] + encoded_bytes(node_id_key()) + encoded_bytes(node_id) + seq![0x65u8]
        + encoded_bytes(transaction_id_key()) + encoded_bytes(trans_id)
        + encoded_bytes(message_type_key()) + encoded_bytes(response_type_key())
        + seq![0x65u8]
}

impl<'a> ActingResponse<'a> {
    pub closed spec fn spec_trans_id(&self) -> Seq<u8> {
        self.trans_id@
    }

    pub closed spec fn spec_node_id(&self) -> Seq<u8> {
        self.node_id@
    }

    pub fn new(trans_id: &'a [u8], node_id: NodeId) -> (r: ActingResponse<'a>)
        ensures
            r.spec_trans_id() == trans_id@,
            r.spec_node_id() == node_id@,
    {
        ActingResponse { trans_id, node_id }
    }

    /// Reads the node id out of the response arguments.
    pub fn from_parts(root: &Vec<(Vec<u8>, Bencode)>, trans_id: &'a [u8]) -> (r: Result<ActingResponse<'a>, DhtError>)
        ensures
            acting_outcome(root@, trans_id@, r),
    {
        let validate = ResponseValidate::new(trans_id);
        let node_id = validate.lookup_node_id(root)?;
        Ok(ActingResponse::new(trans_id, node_id))
    }

    pub fn transaction_id(&self) -> (r: &'a [u8])
        ensures
            r@ == self.spec_trans_id(),
    {
        self.trans_id
    }

    pub fn node_id(&self) -> (r: NodeId)
        ensures
            r@ == self.spec_node_id(),
    {
        self.node_id
    }

    /// The bencoded response.
    pub fn encode(&self) -> (r: Vec<u8>)
        ensures
            r@ == acting_encoding(self.spec_trans_id(), self.spec_node_id()),
    {
        let mut out: Vec<u8> = Vec::new();
        out.push(0x64);
        push_encoded_bytes(&mut out, key_r().as_slice());
        out.push(0x64);
        push_encoded_bytes(&mut out, key_id().as_slice());
        push_encoded_bytes(&mut out, self.node_id.as_slice());
        out.push(0x65);
        push_encoded_bytes(&mut out, key_t().as_slice());
        push_encoded_bytes(&mut out, self.trans_id);
        push_encoded_bytes(&mut out, key_y().as_slice());
        push_encoded_bytes(&mut out, key_r().as_slice());
        out.push(0x65);
        assert(out@ =~= acting_encoding(self.spec_trans_id(), self.spec_node_id()));
        out
    }
}

/// What reading an acting response out of `d` gives.
pub open spec fn acting_outcome(d: Seq<(Vec<u8>, Bencode)>, tid: Seq<u8>, r: Result<ActingResponse, DhtError>) -> bool {
    if node_id_valid(d) {
        r matches Ok(a) && a.spec_trans_id() == tid && a.spec_node_id() == bytes_at(d, node_id_key())
    } else {
        r matches Err(e) && node_id_error(e, d, tid)
    }
}

/// Response to a `find_node`: the sender's id and the closest nodes it knows.
#[derive(Debug, Clone, Copy)]
pub struct FindNodeResponse<'a> {
    pub trans_id: &'a [u8],
    pub node_id: NodeId,
    pub nodes: CompactNodeInfo<'a>,
}

impl<'a> FindNodeResponse<'a> {
    /// Reads the node id and the compact nodes out of the response arguments.
    pub fn from_parts(root: &'a Vec<(Vec<u8>, Bencode)>, trans_id: &'a [u8]) -> (r: Result<FindNodeResponse<'a>, DhtError>)
        ensures
            find_node_outcome(root@, trans_id@, r),
    {
        let validate = ResponseValidate::new(trans_id);
        let node_id = validate.lookup_node_id(root)?;
        let key = key_nodes();
        let nodes_bytes = convert(lookup_and_convert_bytes(root, key.as_slice()))?;
        let nodes = validate.validate_nodes(nodes_bytes)?;
        Ok(FindNodeResponse { trans_id, node_id, nodes })
    }
}

/// What reading a `find_node` response out of `d` gives.
pub open spec fn find_node_outcome(d: Seq<(Vec<u8>, Bencode)>, tid: Seq<u8>, r: Result<FindNodeResponse, DhtError>) -> bool {
    if !node_id_valid(d) {
        r matches Err(e) && node_id_error(e, d, tid)
    } else if !has_bytes(d, nodes_key()) {
        r matches Err(e) && is_lookup_error(e, d, nodes_key(), bytes_type_name())
    } else if bytes_at(d, nodes_key()).len() % 26 != 0 {
        r matches Err(DhtError::InvalidNodesLength { trans_id: t, len })
            && t@ == tid && len == bytes_at(d, nodes_key()).len()
    } else {
        r matches Ok(f) && f.trans_id@ == tid && f.node_id@ == bytes_at(d, node_id_key())
            && f.nodes.bytes() == bytes_at(d, nodes_key())
    }
}

/// What a `get_peers` response carries besides the token.
#[derive(Debug, Clone, Copy)]
pub enum CompactInfoType<'a> {
    Nodes(CompactNodeInfo<'a>),
    Values(CompactValueInfo<'a>),
    Both(CompactNodeInfo<'a>, CompactValueInfo<'a>),
}

/// Response to a `get_peers`: closer nodes, peers for the torrent, or both.
#[derive(Debug, Clone, Copy)]
pub struct GetPeersResponse<'a> {
    pub trans_id: &'a [u8],
    pub node_id: NodeId,
    pub token: Option<&'a [u8]>,
    pub info_type: CompactInfoType<'a>,
}

impl<'a> GetPeersResponse<'a> {
    /// Reads the node id, the optional token and the nodes and/or values out
    /// of the response arguments.
    pub fn from_parts(root: &'a Vec<(Vec<u8>, Bencode)>, trans_id: &'a [u8]) -> (r: Result<GetPeersResponse<'a>, DhtError>)
        ensures
            get_peers_outcome(root@, trans_id@, r),
    {
        let validate = ResponseValidate::new(trans_id);
        let node_id = validate.lookup_node_id(root)?;
        let token = lookup_token(root)?;
        let info_type = validate.lookup_info_type(root)?;
        Ok(GetPeersResponse { trans_id, node_id, token, info_type })
    }
}

/// The nodes are present and well formed.
pub open spec fn nodes_valid(d: Seq<(Vec<u8>, Bencode)>) -> bool {
    has_bytes(d, nodes_key()) && bytes_at(d, nodes_key()).len() % 26 == 0
}

/// The values are present, all byte strings of compact peer length.
pub open spec fn values_valid(d: Seq<(Vec<u8>, Bencode)>) -> bool {
    has_list(d, values_key()) && all_compact_peers(list_at(d, values_key()))
}

/// The error that validating the values of `d` gives.
pub open spec fn values_error(e: DhtError, d: Seq<(Vec<u8>, Bencode)>, tid: Seq<u8>) -> bool {
    if !all_bytes(list_at(d, values_key())) {
        e matches DhtError::NonBytesValue { trans_id: t } && t@ == tid
    } else {
        e matches DhtError::InvalidValueLength { trans_id: t } && t@ == tid
    }
}

/// The error that validating the nodes of `d` gives.
pub open spec fn nodes_error(e: DhtError, d: Seq<(Vec<u8>, Bencode)>, tid: Seq<u8>) -> bool {
    e matches DhtError::InvalidNodesLength { trans_id: t, len } && t@ == tid
        && len == bytes_at(d, nodes_key()).len()
}

/// The information of a `get_peers` response matches what `d` holds.
pub open spec fn info_type_matches(info: CompactInfoType, d: Seq<(Vec<u8>, Bencode)>) -> bool {
    match info {
        CompactInfoType::Nodes(n) => has_bytes(d, nodes_key()) && !has_list(d, values_key())
            && n.bytes() == bytes_at(d, nodes_key()),
        CompactInfoType::Values(v) => !has_bytes(d, nodes_key()) && has_list(d, values_key())
            && v.values() == list_at(d, values_key()),
        CompactInfoType::Both(n, v) => has_bytes(d, nodes_key()) && has_list(d, values_key())
            && n.bytes() == bytes_at(d, nodes_key()) && v.values() == list_at(d, values_key()),
    }
}

/// Reads the optional token of a `get_peers` response.
fn lookup_token<'a>(root: &'a Vec<(Vec<u8>, Bencode)>) -> (r: Result<Option<&'a [u8]>, DhtError>)
    ensures
        match r {
            Ok(Some(t)) => has_bytes(root@, token_key()) && t@ == bytes_at(root@, token_key()),
            Ok(None) => dict_get(root@, token_key()) is None,
            Err(e) => dict_get(root@, token_key()) is Some && !has_bytes(root@, token_key())
                && is_lookup_error(e, root@, token_key(), bytes_type_name()),
        },
{
    let tkey = key_token();
    if dict_contains(root, tkey.as_slice()) {
        Ok(Some(convert(lookup_and_convert_bytes(root, tkey.as_slice()))?))
    } else {
        Ok(None)
    }
}

impl<'a> ResponseValidate<'a> {
    /// Reads the nodes and/or values of a `get_peers` response.
    fn lookup_info_type<'b>(&self, root: &'b Vec<(Vec<u8>, Bencode)>) -> (r: Result<CompactInfoType<'b>, DhtError>)
        ensures
            info_outcome(root@, self.trans_id(), r),
    {
        let nkey = key_nodes();
        let vkey = key_values();
        let maybe_nodes = lookup_and_convert_bytes(root, nkey.as_slice());
        let maybe_values = lookup_and_convert_list(root, vkey.as_slice());
        match (maybe_nodes, maybe_values) {
            (Ok(n), Ok(v)) => {
                let nodes = self.validate_nodes(n)?;
                let values = self.validate_values(v.as_slice())?;
                Ok(CompactInfoType::Both(nodes, values))
            },
            (Ok(n), Err(_)) => Ok(CompactInfoType::Nodes(self.validate_nodes(n)?)),
            (Err(_), Ok(v)) => Ok(CompactInfoType::Values(self.validate_values(v.as_slice())?)),
            (Err(_), Err(_)) => Err(DhtError::MissingNodesAndValues { trans_id: vstd::slice::slice_to_vec(self.trans_id) }),
        }
    }
}

/// What reading the nodes and/or values of `d` gives.
pub open spec fn info_outcome(d: Seq<(Vec<u8>, Bencode)>, tid: Seq<u8>, r: Result<CompactInfoType, DhtError>) -> bool {
    if !has_bytes(d, nodes_key()) && !has_list(d, values_key()) {
        r matches Err(DhtError::MissingNodesAndValues { trans_id: t }) && t@ == tid
    } else if has_bytes(d, nodes_key()) && !nodes_valid(d) {
        r matches Err(e) && nodes_error(e, d, tid)
    } else if has_list(d, values_key()) && !values_valid(d) {
        r matches Err(e) && values_error(e, d, tid)
    } else {
        r matches Ok(info) && info_type_matches(info, d)
    }
}

/// What reading a `get_peers` response out of `d` gives.
pub open spec fn get_peers_outcome(d: Seq<(Vec<u8>, Bencode)>, tid: Seq<u8>, r: Result<GetPeersResponse, DhtError>) -> bool {
    if !node_id_valid(d) {
        r matches Err(e) && node_id_error(e, d, tid)
    } else if dict_get(d, token_key()) is Some && !has_bytes(d, token_key()) {
        r matches Err(e) && is_lookup_error(e, d, token_key(), bytes_type_name())
    } else if !has_bytes(d, nodes_key()) && !has_list(d, values_key()) {
        r matches Err(DhtError::MissingNodesAndValues { trans_id: t }) && t@ == tid
    } else if has_bytes(d, nodes_key()) && !nodes_valid(d) {
        r matches Err(e) && nodes_error(e, d, tid)
    } else if has_list(d, values_key()) && !values_valid(d) {
        r matches Err(e) && values_error(e, d, tid)
    } else {
        r matches Ok(g) && g.trans_id@ == tid && g.node_id@ == bytes_at(d, node_id_key())
            && (match g.token {
                Some(t) => has_bytes(d, token_key()) && t@ == bytes_at(d, token_key()),
                None => dict_get(d, token_key()) is None,
            })
            && info_type_matches(g.info_type, d)
    }
}

/// Which response a transaction is waiting for.
pub enum ExpectedResponse {
    FindNode,
    GetPeers,
    Acting,
    GetData,
    PutData,
    Unsolicited,
}

/// A decoded response.
#[derive(Debug, Clone, Copy)]
pub enum ResponseType<'a> {
    FindNode(FindNodeResponse<'a>),
    GetPeers(GetPeersResponse<'a>),
    Acting(ActingResponse<'a>),
}

/// The kind of response that the arguments `d` are read as: one with a
/// token is a `get_peers` response, else one with nodes a `find_node`
/// response, else an acting one.
pub open spec fn expected_response(d: Seq<(Vec<u8>, Bencode)>) -> ExpectedResponse {
    if dict_get(d, token_key()) is Some {
        ExpectedResponse::GetPeers
    } else if dict_get(d, nodes_key()) is Some {
        ExpectedResponse::FindNode
    } else {
        ExpectedResponse::Acting
    }
}

/// What reading a response out of the message root `root` gives.
pub open spec fn response_outcome(root: Seq<(Vec<u8>, Bencode)>, tid: Seq<u8>, r: Result<ResponseType, DhtError>) -> bool {
    match dict_get(root, response_type_key()) {
        Some(Bencode::Dict(d)) => match expected_response(d@) {
            ExpectedResponse::GetPeers => match r {
                Ok(ResponseType::GetPeers(g)) => get_peers_outcome(d@, tid, Ok(g)),
                Ok(_) => false,
                Err(e) => get_peers_outcome(d@, tid, Err(e)),
            },
            ExpectedResponse::FindNode => match r {
                Ok(ResponseType::FindNode(f)) => find_node_outcome(d@, tid, Ok(f)),
                Ok(_) => false,
                Err(e) => find_node_outcome(d@, tid, Err(e)),
            },
            _ => match r {
                Ok(ResponseType::Acting(a)) => acting_outcome(d@, tid, Ok(a)),
                Ok(_) => false,
                Err(e) => acting_outcome(d@, tid, Err(e)),
            },
        },
        _ => r matches Err(e) && is_lookup_error(e, root, response_type_key(), dict_type_name()),
    }
}

impl<'a> ResponseType<'a> {
    /// Reads the response arguments under `r` and decodes them as the kind
    /// of response their keys show.
    pub fn from_parts(root: &'a Vec<(Vec<u8>, Bencode)>, trans_id: &'a [u8]) -> (r: Result<ResponseType<'a>, DhtError>)
        ensures
            response_outcome(root@, trans_id@, r),
    {
        let rkey = key_r();
        let rsp_root = convert(lookup_and_convert_dict(root, rkey.as_slice()))?;
        let tkey = key_token();
        let nkey = key_nodes();
        let rsp_type = if dict_contains(rsp_root, tkey.as_slice()) {
            ExpectedResponse::GetPeers
        } else if dict_contains(rsp_root, nkey.as_slice()) {
            ExpectedResponse::FindNode
        } else {
            ExpectedResponse::Acting
        };
        match rsp_type {
            ExpectedResponse::GetPeers => Ok(ResponseType::GetPeers(GetPeersResponse::from_parts(rsp_root, trans_id)?)),
            ExpectedResponse::FindNode => Ok(ResponseType::FindNode(FindNodeResponse::from_parts(rsp_root, trans_id)?)),
            _ => Ok(ResponseType::Acting(ActingResponse::from_parts(rsp_root, trans_id)?)),
        }
    }
}

// ---------------------------------------------------------------------------
// Top level messages.

/// A decoded KRPC message.
#[derive(Debug, Clone, Copy)]
pub enum MessageType<'a> {
    /// A query: its transaction id and the name of the method called.
    Request { trans_id: &'a [u8], method: &'a [u8] },
    Response(ResponseType<'a>),
    /// An error reply to one of our queries.
    Error { trans_id: &'a [u8] },
}

impl<'a> MessageType<'a> {
    /// Reads the transaction id and message type of a message root and
    /// dispatches on the type: `q`, `r` or `e`.
    pub fn new(root: &'a Vec<(Vec<u8>, Bencode)>) -> (r: Result<MessageType<'a>, DhtError>)
        ensures
            !has_bytes(root@, transaction_id_key()) ==>
                (r matches Err(e) && is_lookup_error(e, root@, transaction_id_key(), bytes_type_name())),
            has_bytes(root@, transaction_id_key()) && !has_bytes(root@, message_type_key()) ==>
                (r matches Err(e) && is_lookup_error(e, root@, message_type_key(), bytes_type_name())),
            has_bytes(root@, transaction_id_key()) && has_bytes(root@, message_type_key()) ==> {
                let tid = bytes_at(root@, transaction_id_key());
                let y = bytes_at(root@, message_type_key());
                if y == request_type_key() {
                    if has_bytes(root@, request_type_key()) {
                        r matches Ok(MessageType::Request { trans_id: t, method: m })
                            && t@ == tid && m@ == bytes_at(root@, request_type_key())
                    } else {
                        r matches Err(e) && is_lookup_error(e, root@, request_type_key(), bytes_type_name())
                    }
                } else if y == response_type_key() {
                    match r {
                        Ok(MessageType::Response(x)) => response_outcome(root@, tid, Ok(x)),
                        Ok(_) => false,
                        Err(e) => response_outcome(root@, tid, Err(e)),
                    }
                } else if y == error_type_key() {
                    r matches Ok(MessageType::Error { trans_id: t }) && t@ == tid
                } else {
                    r matches Err(DhtError::InvalidMessage { code }) && code@ == y
                }
            },
    {
        let tkey = key_t();
        let trans_id = convert(lookup_and_convert_bytes(root, tkey.as_slice()))?;
        let ykey = key_y();
        let msg_type = convert(lookup_and_convert_bytes(root, ykey.as_slice()))?;
        if msg_type.len() == 1 && msg_type[0] == 0x71 {
            assert(msg_type@ =~= request_type_key());
            let qkey = key_q();
            let method = convert(lookup_and_convert_bytes(root, qkey.as_slice()))?;
            Ok(MessageType::Request { trans_id, method })
        } else if msg_type.len() == 1 && msg_type[0] == 0x72 {
            assert(msg_type@ =~= response_type_key());
            Ok(MessageType::Response(ResponseType::from_parts(root, trans_id)?))
        } else if msg_type.len() == 1 && msg_type[0] == 0x65 {
            assert(msg_type@ =~= error_type_key());
            Ok(MessageType::Error { trans_id })
        } else {
            assert(msg_type@ != request_type_key());
            assert(msg_type@ != response_type_key());
            assert(msg_type@ != error_type_key());
            Err(DhtError::InvalidMessage { code: vstd::slice::slice_to_vec(msg_type) })
        }
    }
}

} // verus!
