use vstd::prelude::*;

verus! {

/// Size of a block requested from a peer.
pub const BLOCK_SIZE: u32 = 16384;

/// Big-endian value of the first four bytes.
pub open spec fn be_u32(s: Seq<u8>) -> int {
    s[0] * 0x1000000 + s[1] * 0x10000 + s[2] * 0x100 + s[3]
}

/// Big-endian encoding of a `u32`.
pub open spec fn u32_be(x: u32) -> Seq<u8> {
    seq![(x / 0x1000000) as u8, ((x / 0x10000) % 0x100) as u8, ((x / 0x100) % 0x100) as u8, (x % 0x100) as u8]
}

/// Decoding the big-endian encoding gives the value back.
pub proof fn lemma_be_u32_roundtrip(x: u32)
    ensures
        be_u32(u32_be(x)) == x,
        u32_be(x).len() == 4,
{
}

/// Reads a big-endian `u32` from the first four bytes.
pub fn bytes_to_u32(bytes: &[u8]) -> (r: u32)
    requires
        bytes@.len() >= 4,
    ensures
        r == be_u32(bytes@),
{
    (bytes[0] as u32) * 0x1000000 + (bytes[1] as u32) * 0x10000 + (bytes[2] as u32) * 0x100 + (bytes[3] as u32)
}

/// The four big-endian bytes of a `u32`.
pub fn u32_to_bytes(integer: u32) -> (r: Vec<u8>)
    ensures
        r@ == u32_be(integer),
{
    let mut v = Vec::new();
    v.push((integer / 0x1000000) as u8);
    v.push(((integer / 0x10000) % 0x100) as u8);
    v.push(((integer / 0x100) % 0x100) as u8);
    v.push((integer % 0x100) as u8);
    assert(v@ =~= u32_be(integer));
    v
}

/// A peer wire protocol message.
#[derive(Clone, Debug, PartialEq, Eq)]
pub enum Message {
    KeepAlive,
    Choke,
    Unchoke,
    Interested,
    NotInterested,
    Have(u32),
    Bitfield(Vec<u8>),
    Request(u32, u32, u32),
    Piece(u32, u32, Vec<u8>),
    Cancel(u32, u32, u32),
    Port,
}

/// Mathematical value of a `Message`.
pub enum MessageView {
    KeepAlive,
    Choke,
    Unchoke,
    Interested,
    NotInterested,
    Have(u32),
    Bitfield(Seq<u8>),
    Request(u32, u32, u32),
    Piece(u32, u32, Seq<u8>),
    Cancel(u32, u32, u32),
    Port,
}

impl View for Message {
    type V = MessageView;

    open spec fn view(&self) -> MessageView {
        match self {
            Message::KeepAlive => MessageView::KeepAlive,
            Message::Choke => MessageView::Choke,
            Message::Unchoke => MessageView::Unchoke,
            Message::Interested => MessageView::Interested,
            Message::NotInterested => MessageView::NotInterested,
            Message::Have(i) => MessageView::Have(*i),
            Message::Bitfield(b) => MessageView::Bitfield(b@),
            Message::Request(i, o, l) => MessageView::Request(*i, *o, *l),
            Message::Piece(i, o, d) => MessageView::Piece(*i, *o, d@),
            Message::Cancel(i, o, l) => MessageView::Cancel(*i, *o, *l),
            Message::Port => MessageView::Port,
        }
    }
}

/// A message id with a body that `Message::new` accepts: a known id, and a
/// body long enough for the fields that id reads.
pub open spec fn parsable(id: u8, body: Seq<u8>) -> bool {
    &&& id <= 9
    &&& id == 4 ==> body.len() >= 4
    &&& (id == 6 || id == 8) ==> body.len() >= 12
    &&& id == 7 ==> body.len() >= 8
}

/// The message with the given id and body.
pub open spec fn spec_parse(id: u8, body: Seq<u8>) -> MessageView {
    if id == 0 {
        MessageView::Choke
    } else if id == 1 {
        MessageView::Unchoke
    } else if id == 2 {
        MessageView::Interested
    } else if id == 3 {
        MessageView::NotInterested
    } else if id == 4 {
        MessageView::Have(be_u32(body) as u32)
    } else if id == 5 {
        MessageView::Bitfield(body)
    } else if id == 6 {
        MessageView::Request(be_u32(body) as u32, be_u32(body.subrange(4, 8)) as u32, be_u32(body.subrange(8, 12)) as u32)
    } else if id == 7 {
        MessageView::Piece(be_u32(body) as u32, be_u32(body.subrange(4, 8)) as u32, body.subrange(8, body.len() as int))
    } else if id == 8 {
        MessageView::Cancel(be_u32(body) as u32, be_u32(body.subrange(4, 8)) as u32, be_u32(body.subrange(8, 12)) as u32)
    } else {
        MessageView::Port
    }
}

/// The payload (id and body) that `serialize` writes after the length
/// prefix.
pub open spec fn spec_payload(m: MessageView) -> Seq<u8> {
    match m {
        MessageView::KeepAlive => Seq::empty(),
        MessageView::Choke => seq![0u8],
        MessageView::Unchoke => seq![1u8],
        MessageView::Interested => seq![2u8],
        MessageView::NotInterested => seq![3u8],
        MessageView::Have(i) => seq![4u8] + u32_be(i),
        MessageView::Bitfield(b) => seq![5u8] + b,
        MessageView::Request(i, o, l) => seq![6u8] + u32_be(i) + u32_be(o) + u32_be(l),
        MessageView::Piece(i, o, d) => seq![7u8] + u32_be(i) + u32_be(o) + d,
        MessageView::Cancel(i, o, l) => seq![8u8] + u32_be(i) + u32_be(o) + u32_be(l),
        MessageView::Port => seq![9u8],
    }
}

/// The bytes `serialize` writes: the payload length as a big-endian `u32`
/// (truncated to 32 bits), then the payload.
pub open spec fn spec_serialize(m: MessageView) -> Seq<u8> {
    u32_be(spec_payload(m).len() as u32) + spec_payload(m)
}

/// A frame as read from the socket: a big-endian length, then that many
/// bytes; a zero length is a keep-alive, otherwise the first byte is the id.
pub open spec fn frame_decodable(frame: Seq<u8>) -> bool {
    &&& frame.len() >= 4
    &&& frame.len() == 4 + be_u32(frame)
    &&& frame.len() > 4 ==> parsable(frame[4], frame.subrange(5, frame.len() as int))
}

pub open spec fn spec_decode_frame(frame: Seq<u8>) -> MessageView {
    if frame.len() == 4 {
        MessageView::KeepAlive
    } else {
        spec_parse(frame[4], frame.subrange(5, frame.len() as int))
    }
}

fn append(v: &mut Vec<u8>, w: &[u8])
    ensures
        final(v)@ == old(v)@ + w@,
{
    let mut i: usize = 0;
    let ghost start = v@;
    while i < w.len()
        invariant
            i <= w@.len(),
            v@ == start + w@.take(i as int),
        decreases w@.len() - i,
    {
        v.push(w[i]);
        i = i + 1;
        proof {
            assert(w@.take(i as int) =~= w@.take(i - 1).push(w@[i - 1]));
        }
    }
    assert(w@.take(w@.len() as int) =~= w@);
}

impl Message {
    /// Builds the message with the given id from its body.
    pub fn new(id: &u8, body: &[u8]) -> (r: Message)
        requires
            parsable(*id, body@),
        ensures
            r@ == spec_parse(*id, body@),
            *id == 6 ==> r@ == MessageView::Request(be_u32(body@.subrange(0, 4)) as u32,
                be_u32(body@.subrange(4, 8)) as u32, be_u32(body@.subrange(8, 12)) as u32),
            *id == 8 ==> r@ == MessageView::Cancel(be_u32(body@.subrange(0, 4)) as u32,
                be_u32(body@.subrange(4, 8)) as u32, be_u32(body@.subrange(8, 12)) as u32),
            *id == 7 ==> r@ == MessageView::Piece(be_u32(body@.subrange(0, 4)) as u32,
                be_u32(body@.subrange(4, 8)) as u32, body@.subrange(8, body@.len() as int)),
    {
        proof {
            if *id == 6 || *id == 8 {
                lemma_request_fields_read(*id, body@, 0, 0, 0);
            } else if *id == 7 {
                lemma_piece_fields_read(body@, 0, 0, Seq::empty());
            }
        }
        match *id {
            0 => Message::Choke,
            1 => Message::Unchoke,
            2 => Message::Interested,
            3 => Message::NotInterested,
            4 => Message::Have(bytes_to_u32(body)),
            5 => Message::Bitfield(vstd::slice::slice_to_vec(body)),
            6 => {
                let index = bytes_to_u32(body);
                let offset = bytes_to_u32(slice_range(body, 4, 8));
                let length = bytes_to_u32(slice_range(body, 8, 12));
                Message::Request(index, offset, length)
            }
            7 => {
                let index = bytes_to_u32(body);
                let offset = bytes_to_u32(slice_range(body, 4, 8));
                let data = vstd::slice::slice_to_vec(slice_range(body, 8, body.len()));
                Message::Piece(index, offset, data)
            }
            8 => {
                let index = bytes_to_u32(body);
                let offset = bytes_to_u32(slice_range(body, 4, 8));
                let length = bytes_to_u32(slice_range(body, 8, 12));
                Message::Cancel(index, offset, length)
            }
            _ => Message::Port,
        }
    }

    /// The bytes sent on the wire for this message: a big-endian length
    /// prefix, then the id and the fields.
    pub fn serialize(self) -> (r: Vec<u8>)
        ensures
            r@ == spec_serialize(self@),
            self@ matches MessageView::Request(i, o, l) ==> r@.len() == 17 && r@[4] == 6
                && be_u32(r@.subrange(5, 9)) == i && be_u32(r@.subrange(9, 13)) == o && be_u32(r@.subrange(13, 17)) == l,
            self@ matches MessageView::Cancel(i, o, l) ==> r@.len() == 17 && r@[4] == 8
                && be_u32(r@.subrange(5, 9)) == i && be_u32(r@.subrange(9, 13)) == o && be_u32(r@.subrange(13, 17)) == l,
            self@ matches MessageView::Have(i) ==> r@.len() == 9 && r@[4] == 4 && be_u32(r@.subrange(5, 9)) == i,
    {
        let ghost m = self@;
        proof {
            match m {
                MessageView::Request(i, o, l) => lemma_request_layout(i, o, l),
                MessageView::Cancel(i, o, l) => lemma_cancel_layout(i, o, l),
                MessageView::Have(i) => lemma_have_layout(i),
                _ => {},
            }
        }
        let mut payload: Vec<u8> = Vec::new();
        match self {
            Message::KeepAlive => {},
            Message::Choke => payload.push(0),
            Message::Unchoke => payload.push(1),
            Message::Interested => payload.push(2),
            Message::NotInterested => payload.push(3),
            Message::Have(index) => {
                payload.push(4);
                append(&mut payload, u32_to_bytes(index).as_slice());
            },
            Message::Bitfield(bytes) => {
                payload.push(5);
                append(&mut payload, bytes.as_slice());
            },
            Message::Request(index, offset, length) => {
                payload.push(6);
                append(&mut payload, u32_to_bytes(index).as_slice());
                append(&mut payload, u32_to_bytes(offset).as_slice());
                append(&mut payload, u32_to_bytes(length).as_slice());
            },
            Message::Piece(index, offset, data) => {
                payload.push(7);
                append(&mut payload, u32_to_bytes(index).as_slice());
                append(&mut payload, u32_to_bytes(offset).as_slice());
                append(&mut payload, data.as_slice());
            },
            Message::Cancel(index, offset, length) => {
                payload.push(8);
                append(&mut payload, u32_to_bytes(index).as_slice());
                append(&mut payload, u32_to_bytes(offset).as_slice());
                append(&mut payload, u32_to_bytes(length).as_slice());
            },
            Message::Port => payload.push(9),
        };
        assert(payload@ =~= spec_payload(m));
        let mut size = u32_to_bytes(payload.len() as u32);
        append(&mut size, payload.as_slice());
        size
    }

    /// Decodes a whole frame (length prefix included) read from a peer.
    pub fn decode_frame(frame: &[u8]) -> (r: Message)
        requires
            frame_decodable(frame@),
        ensures
            r@ == spec_decode_frame(frame@),
    {
        let message_size = bytes_to_u32(frame);
        if message_size > 0 {
            let message = slice_range(frame, 4, frame.len());
            let body = slice_range(message, 1, message.len());
            assert(body@ =~= frame@.subrange(5, frame@.len() as int));
            assert(message@[0] == frame@[4]);
            Message::new(&message[0], body)
        } else {
            Message::KeepAlive
        }
    }
}

/// Whether a frame read from a peer can be decoded: its length prefix
/// matches and its id and body are ones `Message::new` accepts.
pub fn is_frame_decodable(frame: &[u8]) -> (r: bool)
    ensures
        r == frame_decodable(frame@),
{
    if frame.len() < 4 {
        return false;
    }
    let n = bytes_to_u32(frame);
    if (frame.len() - 4) as u64 != n as u64 {
        return false;
    }
    if frame.len() == 4 {
        return true;
    }
    let id = frame[4];
    let body_len = frame.len() - 5;
    assert(frame@.subrange(5, frame@.len() as int).len() == body_len);
    id <= 9 && (id != 4 || body_len >= 4) && ((id != 6 && id != 8) || body_len >= 12) && (id != 7
        || body_len >= 8)
}

/// The bytes `s[start..end]`.
pub fn slice_range(s: &[u8], start: usize, end: usize) -> (r: &[u8])
    requires
        start <= end <= s@.len(),
    ensures
        r@ == s@.subrange(start as int, end as int),
{
    vstd::slice::slice_subrange(s, start, end)
}

/// Decoding the frame that `serialize` writes gives the message back, for
/// every message whose payload length fits the 32-bit prefix.
pub proof fn lemma_frame_roundtrip(m: MessageView)
    requires
        spec_payload(m).len() <= u32::MAX,
    ensures
        frame_decodable(spec_serialize(m)),
        spec_decode_frame(spec_serialize(m)) == m,
{
    let p = spec_payload(m);
    let f = spec_serialize(m);
    lemma_be_u32_roundtrip(p.len() as u32);
    assert(f.subrange(0, 4) =~= u32_be(p.len() as u32));
    assert(be_u32(f) == be_u32(f.subrange(0, 4)));
    assert(f.len() == 4 + p.len());
    if p.len() > 0 {
        let body = f.subrange(5, f.len() as int);
        assert(body =~= p.subrange(1, p.len() as int));
        assert(f[4] == p[0]);
        match m {
            MessageView::Have(i) => {
                lemma_be_u32_roundtrip(i);
                assert(body =~= u32_be(i));
            },
            MessageView::Request(i, o, l) => {
                lemma_be_u32_roundtrip(i);
                lemma_be_u32_roundtrip(o);
                lemma_be_u32_roundtrip(l);
                assert(body.subrange(0, 4) =~= u32_be(i));
                assert(body.subrange(4, 8) =~= u32_be(o));
                assert(body.subrange(8, 12) =~= u32_be(l));
                assert(be_u32(body) == be_u32(body.subrange(0, 4)));
            },
            MessageView::Cancel(i, o, l) => {
                lemma_be_u32_roundtrip(i);
                lemma_be_u32_roundtrip(o);
                lemma_be_u32_roundtrip(l);
                assert(body.subrange(0, 4) =~= u32_be(i));
                assert(body.subrange(4, 8) =~= u32_be(o));
                assert(body.subrange(8, 12) =~= u32_be(l));
                assert(be_u32(body) == be_u32(body.subrange(0, 4)));
            },
            MessageView::Piece(i, o, d) => {
                lemma_be_u32_roundtrip(i);
                lemma_be_u32_roundtrip(o);
                assert(body.subrange(0, 4) =~= u32_be(i));
                assert(body.subrange(4, 8) =~= u32_be(o));
                assert(body.subrange(8, body.len() as int) =~= d);
                assert(be_u32(body) == be_u32(body.subrange(0, 4)));
            },
            MessageView::Bitfield(b) => {
                assert(body =~= b);
            },
            _ => {},
        }
    }
}

/// A request frame is 17 bytes: the length 13, the id 6, then the piece
/// index, the block offset and the block length, each as four big-endian
/// bytes, in that order.
pub proof fn lemma_request_layout(i: u32, o: u32, l: u32)
    ensures
        ({
            let f = spec_serialize(MessageView::Request(i, o, l));
            &&& f.len() == 17
            &&& be_u32(f) == 13
            &&& f[4] == 6
            &&& be_u32(f.subrange(5, 9)) == i
            &&& be_u32(f.subrange(9, 13)) == o
            &&& be_u32(f.subrange(13, 17)) == l
        }),
{
    let f = spec_serialize(MessageView::Request(i, o, l));
    lemma_be_u32_roundtrip(13);
    lemma_be_u32_roundtrip(i);
    lemma_be_u32_roundtrip(o);
    lemma_be_u32_roundtrip(l);
    assert(f.subrange(0, 4) =~= u32_be(13));
    assert(be_u32(f) == be_u32(f.subrange(0, 4)));
    assert(f.subrange(5, 9) =~= u32_be(i));
    assert(f.subrange(9, 13) =~= u32_be(o));
    assert(f.subrange(13, 17) =~= u32_be(l));
}

/// A cancel frame is laid out as a request, under the id 8: the piece
/// index, the block offset and the block length, in that order.
pub proof fn lemma_cancel_layout(i: u32, o: u32, l: u32)
    ensures
        ({
            let f = spec_serialize(MessageView::Cancel(i, o, l));
            &&& f.len() == 17
            &&& be_u32(f) == 13
            &&& f[4] == 8
            &&& be_u32(f.subrange(5, 9)) == i
            &&& be_u32(f.subrange(9, 13)) == o
            &&& be_u32(f.subrange(13, 17)) == l
        }),
{
    let f = spec_serialize(MessageView::Cancel(i, o, l));
    lemma_be_u32_roundtrip(13);
    lemma_be_u32_roundtrip(i);
    lemma_be_u32_roundtrip(o);
    lemma_be_u32_roundtrip(l);
    assert(f.subrange(0, 4) =~= u32_be(13));
    assert(be_u32(f) == be_u32(f.subrange(0, 4)));
    assert(f.subrange(5, 9) =~= u32_be(i));
    assert(f.subrange(9, 13) =~= u32_be(o));
    assert(f.subrange(13, 17) =~= u32_be(l));
}

/// A piece frame: the length 9 plus the data, the id 7, the piece index,
/// the block offset, then the data itself.
pub proof fn lemma_piece_layout(i: u32, o: u32, d: Seq<u8>)
    requires
        9 + d.len() <= u32::MAX,
    ensures
        ({
            let f = spec_serialize(MessageView::Piece(i, o, d));
            &&& f.len() == 13 + d.len()
            &&& be_u32(f) == 9 + d.len()
            &&& f[4] == 7
            &&& be_u32(f.subrange(5, 9)) == i
            &&& be_u32(f.subrange(9, 13)) == o
            &&& f.subrange(13, f.len() as int) == d
        }),
{
    let f = spec_serialize(MessageView::Piece(i, o, d));
    let n = (9 + d.len()) as u32;
    lemma_be_u32_roundtrip(n);
    lemma_be_u32_roundtrip(i);
    lemma_be_u32_roundtrip(o);
    assert(f.subrange(0, 4) =~= u32_be(n));
    assert(be_u32(f) == be_u32(f.subrange(0, 4)));
    assert(f.subrange(5, 9) =~= u32_be(i));
    assert(f.subrange(9, 13) =~= u32_be(o));
    assert(f.subrange(13, f.len() as int) =~= d);
}

/// A have frame: the length 5, the id 4, then the piece index.
pub proof fn lemma_have_layout(i: u32)
    ensures
        ({
            let f = spec_serialize(MessageView::Have(i));
            &&& f.len() == 9
            &&& be_u32(f) == 5
            &&& f[4] == 4
            &&& be_u32(f.subrange(5, 9)) == i
        }),
{
    let f = spec_serialize(MessageView::Have(i));
    lemma_be_u32_roundtrip(5);
    lemma_be_u32_roundtrip(i);
    assert(f.subrange(0, 4) =~= u32_be(5));
    assert(be_u32(f) == be_u32(f.subrange(0, 4)));
    assert(f.subrange(5, 9) =~= u32_be(i));
}

/// Reading a request or cancel body: the first four big-endian bytes are
/// the piece index, the next four the block offset and the four after the
/// block length; a body written in that order reads back as those fields.
pub proof fn lemma_request_fields_read(id: u8, body: Seq<u8>, i: u32, o: u32, l: u32)
    requires
        id == 6 || id == 8,
        body.len() >= 12,
    ensures
        id == 6 ==> spec_parse(id, body) == MessageView::Request(be_u32(body.subrange(0, 4)) as u32,
            be_u32(body.subrange(4, 8)) as u32, be_u32(body.subrange(8, 12)) as u32),
        id == 8 ==> spec_parse(id, body) == MessageView::Cancel(be_u32(body.subrange(0, 4)) as u32,
            be_u32(body.subrange(4, 8)) as u32, be_u32(body.subrange(8, 12)) as u32),
        id == 6 ==> spec_parse(id, u32_be(i) + u32_be(o) + u32_be(l)) == MessageView::Request(i, o, l),
        id == 8 ==> spec_parse(id, u32_be(i) + u32_be(o) + u32_be(l)) == MessageView::Cancel(i, o, l),
{
    assert(be_u32(body) == be_u32(body.subrange(0, 4)));
    let w = u32_be(i) + u32_be(o) + u32_be(l);
    lemma_be_u32_roundtrip(i);
    lemma_be_u32_roundtrip(o);
    lemma_be_u32_roundtrip(l);
    assert(w.subrange(0, 4) =~= u32_be(i));
    assert(w.subrange(4, 8) =~= u32_be(o));
    assert(w.subrange(8, 12) =~= u32_be(l));
    assert(be_u32(w) == be_u32(w.subrange(0, 4)));
}

/// Reading a piece body: the piece index, then the block offset, then the
/// data; a body written in that order reads back as those fields.
pub proof fn lemma_piece_fields_read(body: Seq<u8>, i: u32, o: u32, d: Seq<u8>)
    requires
        body.len() >= 8,
    ensures
        spec_parse(7, body) == MessageView::Piece(be_u32(body.subrange(0, 4)) as u32,
            be_u32(body.subrange(4, 8)) as u32, body.subrange(8, body.len() as int)),
        spec_parse(7, u32_be(i) + u32_be(o) + d) == MessageView::Piece(i, o, d),
{
    assert(be_u32(body) == be_u32(body.subrange(0, 4)));
    let w = u32_be(i) + u32_be(o) + d;
    lemma_be_u32_roundtrip(i);
    lemma_be_u32_roundtrip(o);
    assert(w.subrange(0, 4) =~= u32_be(i));
    assert(w.subrange(4, 8) =~= u32_be(o));
    assert(w.subrange(8, w.len() as int) =~= d);
    assert(be_u32(w) == be_u32(w.subrange(0, 4)));
}

/// The frames without fields are five bytes: the length 1, then the id,
/// 0 for choke, 1 for unchoke, 2 for interested, 3 for not interested and
/// 9 for port; a keep-alive is the four zero bytes of a zero length; a
/// bitfield frame is the length, the id 5, then the bitfield bytes.
pub proof fn lemma_plain_frames(b: Seq<u8>)
    requires
        1 + b.len() <= u32::MAX,
    ensures
        spec_serialize(MessageView::KeepAlive) == seq![0u8, 0, 0, 0],
        spec_serialize(MessageView::Choke) == seq![0u8, 0, 0, 1, 0],
        spec_serialize(MessageView::Unchoke) == seq![0u8, 0, 0, 1, 1],
        spec_serialize(MessageView::Interested) == seq![0u8, 0, 0, 1, 2],
        spec_serialize(MessageView::NotInterested) == seq![0u8, 0, 0, 1, 3],
        spec_serialize(MessageView::Port) == seq![0u8, 0, 0, 1, 9],
        ({
            let f = spec_serialize(MessageView::Bitfield(b));
            &&& f.len() == 5 + b.len()
            &&& be_u32(f) == 1 + b.len()
            &&& f[4] == 5
            &&& f.subrange(5, f.len() as int) == b
        }),
{
    assert(spec_serialize(MessageView::KeepAlive) =~= seq![0u8, 0, 0, 0]);
    assert(spec_serialize(MessageView::Choke) =~= seq![0u8, 0, 0, 1, 0]);
    assert(spec_serialize(MessageView::Unchoke) =~= seq![0u8, 0, 0, 1, 1]);
    assert(spec_serialize(MessageView::Interested) =~= seq![0u8, 0, 0, 1, 2]);
    assert(spec_serialize(MessageView::NotInterested) =~= seq![0u8, 0, 0, 1, 3]);
    assert(spec_serialize(MessageView::Port) =~= seq![0u8, 0, 0, 1, 9]);
    let f = spec_serialize(MessageView::Bitfield(b));
    let n = (1 + b.len()) as u32;
    lemma_be_u32_roundtrip(n);
    assert(f.subrange(0, 4) =~= u32_be(n));
    assert(be_u32(f) == be_u32(f.subrange(0, 4)));
    assert(f.subrange(5, f.len() as int) =~= b);
}

} // verus!


