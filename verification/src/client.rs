use vstd::prelude::*;

use crate::download::{Piece, block_length, num_blocks};
use crate::rng::random_range;
use crate::sha::{all_ascii, ascii_chars, ascii_to_string};

verus! {

/// Why the client stopped.
#[derive(Debug)]
pub enum Error {
    DecoderError(crate::meta_info::Error),
    TrackerError(crate::tracker::TrackerError),
}

/// `-btX001-`: the client's peer id prefix.
pub open spec fn peer_id_prefix() -> Seq<u8> {
    seq![0x2du8, 0x62, 0x74, 0x58, 0x30, 0x30, 0x31, 0x2d]
}

/// A character of the random part of a peer id: `a` to `y`, `A` to `Y` or
/// `0` to `8`.
pub open spec fn peer_id_char(b: u8) -> bool {
    (97 <= b < 122) || (65 <= b < 90) || (48 <= b < 57)
}

/// The bytes form a peer id of this client: the prefix, then twelve
/// characters of the random part.
pub open spec fn is_peer_id(s: Seq<u8>) -> bool {
    &&& s.len() == 20
    &&& s.subrange(0, 8) == peer_id_prefix()
    &&& forall|i: int| 8 <= i < 20 ==> peer_id_char(#[trigger] s[i])
}

/// One random character of a peer id: a class is drawn, then a character
/// of that class.
fn random_peer_id_char() -> (r: u8)
    ensures
        peer_id_char(r),
{
    let class = random_range(0, 3);
    if class == 0 {
        random_range(97, 122) as u8
    } else if class == 1 {
        random_range(65, 90) as u8
    } else {
        random_range(48, 57) as u8
    }
}

/// The bytes of a fresh peer id.
pub fn generate_peer_id_bytes() -> (r: Vec<u8>)
    ensures
        is_peer_id(r@),
{
    let mut data: Vec<u8> = vec![0x2du8, 0x62, 0x74, 0x58, 0x30, 0x30, 0x31, 0x2d];
    assert(data@ =~= peer_id_prefix());
    let mut i: usize = 0;
    while i < 12
        invariant
            i <= 12,
            data@.len() == 8 + i,
            data@.subrange(0, 8) == peer_id_prefix(),
            forall|k: int| 8 <= k < 8 + i ==> peer_id_char(#[trigger] data@[k]),
        decreases 12 - i,
    {
        let c = random_peer_id_char();
        let ghost before = data@;
        data.push(c);
        assert(data@.subrange(0, 8) =~= before.subrange(0, 8));
        i = i + 1;
    }
    data
}

/// A fresh peer id: the prefix `-btX001-` and twelve random letters and
/// digits.
pub fn generate_peer_id() -> (r: String)
    ensures
        exists|b: Seq<u8>| is_peer_id(b) && r@ == ascii_chars(b),
{
    let data = generate_peer_id_bytes();
    let ghost b = data@;
    assert(all_ascii(data@));
    ascii_to_string(data)
}

/// Offset of piece `i`.
pub open spec fn piece_offset(piece_length: u64, i: int) -> int {
    i * piece_length
}

/// Length of piece `i` of `num_pieces`: a full piece but the last, which
/// takes what is left of the file; kept to 32 bits as pieces hold it.
pub open spec fn piece_len(file_length: u64, piece_length: u64, num_pieces: u32, i: int) -> u32 {
    if i < num_pieces - 1 {
        piece_length as u32
    } else {
        (file_length - piece_offset(piece_length, i)) as u32
    }
}

/// Splits the download into its pieces, each with its offset, its length
/// and its hash, all blocks still to download.
pub fn pieces_spilt(file_length: u64, piece_length: u64, num_pieces: u32, piece_list: Vec<Vec<u8>>) -> (r: Vec<Piece>)
    requires
        piece_list@.len() >= num_pieces,
        num_pieces > 0 ==> (num_pieces - 1) * piece_length <= file_length,
        file_length <= u64::MAX,
    ensures
        r@.len() == num_pieces,
        forall|i: int| 0 <= i < num_pieces ==> {
            &&& (#[trigger] r@[i]).offset == piece_offset(piece_length, i)
            &&& r@[i].length == piece_len(file_length, piece_length, num_pieces, i)
            &&& r@[i].hash@ == piece_list@[i]@
            &&& !r@[i].is_complete
            &&& r@[i].blocks@.len() == num_blocks(r@[i].length)
            &&& forall|k: int| 0 <= k < r@[i].blocks@.len() ==> (#[trigger] r@[i].blocks@[k]).index == k
                && r@[i].blocks@[k].length == block_length(r@[i].length, k)
                && !r@[i].blocks@[k].is_complete
        },
{
    let mut pieces: Vec<Piece> = Vec::new();
    let mut list = piece_list;
    let mut i: u32 = 0;
    while i < num_pieces
        invariant
            i <= num_pieces,
            num_pieces > 0 ==> (num_pieces - 1) * piece_length <= file_length,
            pieces@.len() == i,
            list@ == piece_list@.skip(i as int),
            piece_list@.len() >= num_pieces,
            forall|j: int| 0 <= j < i ==> {
                &&& (#[trigger] pieces@[j]).offset == piece_offset(piece_length, j)
                &&& pieces@[j].length == piece_len(file_length, piece_length, num_pieces, j)
                &&& pieces@[j].hash@ == piece_list@[j]@
                &&& !pieces@[j].is_complete
                &&& pieces@[j].blocks@.len() == num_blocks(pieces@[j].length)
                &&& forall|k: int| 0 <= k < pieces@[j].blocks@.len() ==> (#[trigger] pieces@[j].blocks@[k]).index == k
                    && pieces@[j].blocks@[k].length == block_length(pieces@[j].length, k)
                    && !pieces@[j].blocks@[k].is_complete
            },
        decreases num_pieces - i,
    {
        assert(i * piece_length <= (num_pieces - 1) * piece_length) by (nonlinear_arith)
            requires
                i < num_pieces,
        ;
        let offset = i as u64 * piece_length;
        let length = if i < num_pieces - 1 { piece_length } else { file_length - offset };
        let hash = list.remove(0);
        assert(list@ =~= piece_list@.skip(i + 1));
        let piece = Piece::new(length as u32, offset, hash);
        pieces.push(piece);
        i = i + 1;
    }
    pieces
}

} // verus!
