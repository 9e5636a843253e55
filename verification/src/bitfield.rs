use vstd::prelude::*;
use vstd::arithmetic::power2::pow2;

verus! {

/// Mask selecting bit `k` of a byte counted from the most significant bit.
pub open spec fn bit_mask(k: int) -> u8 {
    (1u8 << ((7 - k) as u8)) as u8
}

/// Whether piece `i` is marked in a bitfield: bit `7 - i % 8` of byte
/// `i / 8` (the high bit of the first byte is piece 0).
pub open spec fn bit_at(bytes: Seq<u8>, i: int) -> bool {
    bytes[i / 8] & bit_mask(i % 8) != 0
}

/// Number of bytes of a bitfield for `n` pieces.
pub open spec fn bitfield_len(n: int) -> int {
    (n + 7) / 8
}

proof fn lemma_set_bit(x: u8, k: u8, k2: u8)
    requires
        k < 8,
        k2 < 8,
    ensures
        ((x | (1u8 << (7 - k) as u8)) & (1u8 << (7 - k2) as u8) != 0) == ((x & (1u8 << (7 - k2) as u8) != 0) || k == k2),
        (0u8 & (1u8 << (7 - k2) as u8)) == 0,
{
    assert(((x | (1u8 << (7 - k) as u8)) & (1u8 << (7 - k2) as u8) != 0) == ((x & (1u8 << (7 - k2) as u8) != 0) || k == k2)) by (bit_vector)
        requires
            k < 8,
            k2 < 8,
    ;
    assert((0u8 & (1u8 << (7 - k2) as u8)) == 0) by (bit_vector)
        requires
            k2 < 8,
    ;
}

/// Encodes which pieces we have as a bitfield message body: one bit per
/// piece, most significant bit first, padded with zero bits.
pub fn bitfield_from_pieces(has_pieces: &[bool]) -> (r: Vec<u8>)
    requires
        has_pieces@.len() + 7 <= usize::MAX,
    ensures
        r@.len() == bitfield_len(has_pieces@.len() as int),
        forall|i: int| 0 <= i < has_pieces@.len() ==> #[trigger] bit_at(r@, i) == has_pieces@[i],
        forall|i: int| has_pieces@.len() <= i < 8 * r@.len() ==> !#[trigger] bit_at(r@, i),
{
    let n = has_pieces.len();
    let len = (n + 7) / 8;
    let mut bytes: Vec<u8> = Vec::new();
    let mut k: usize = 0;
    while k < len
        invariant
            k <= len,
            bytes@.len() == k,
            forall|j: int| 0 <= j < k ==> bytes@[j] == 0,
        decreases len - k,
    {
        bytes.push(0);
        k = k + 1;
    }
    assert forall|j: int| 0 <= j < 8 * len implies !#[trigger] bit_at(bytes@, j) by {
        lemma_set_bit(0, 0, (j % 8) as u8);
    }
    assert(n <= 8 * len);
    let mut have_index: usize = 0;
    while have_index < n
        invariant
            n == has_pieces@.len(),
            len == bitfield_len(n as int),
            n <= 8 * len,
            have_index <= n,
            bytes@.len() == len,
            forall|j: int| 0 <= j < have_index ==> #[trigger] bit_at(bytes@, j) == has_pieces@[j],
            forall|j: int| have_index <= j < 8 * len ==> !#[trigger] bit_at(bytes@, j),
        decreases n - have_index,
    {
        let bytes_index = have_index / 8;
        let index_into_byte = have_index % 8;
        if has_pieces[have_index] {
            let ghost before = bytes@;
            let mask: u8 = 1u8 << ((7 - index_into_byte) as u8);
            let b = bytes[bytes_index] | mask;
            bytes.set(bytes_index, b);
            proof {
                assert(mask == bit_mask((have_index % 8) as int));
                assert forall|j: int| 0 <= j < 8 * len implies #[trigger] bit_at(bytes@, j) == (bit_at(before, j) || j == have_index) by {
                    let k2 = (j % 8) as u8;
                    assert(bit_mask(j % 8) == (1u8 << (7 - k2) as u8));
                    if j / 8 == bytes_index {
                        lemma_set_bit(before[j / 8], index_into_byte as u8, k2);
                        assert(bytes@[j / 8] == before[j / 8] | mask);
                        assert((j == have_index) == (index_into_byte == k2));
                    } else {
                        assert(bytes@[j / 8] == before[j / 8]);
                        assert(j != have_index);
                    }
                }
            }
        }
        have_index = have_index + 1;
    }
    bytes
}

/// Decodes which of `num_pieces` pieces a peer has from its bitfield.
pub fn pieces_from_bitfield(bytes: &[u8], num_pieces: usize) -> (r: Vec<bool>)
    requires
        num_pieces <= 8 * bytes@.len(),
    ensures
        r@.len() == num_pieces,
        forall|i: int| 0 <= i < num_pieces ==> r@[i] == #[trigger] bit_at(bytes@, i),
{
    let mut has: Vec<bool> = Vec::new();
    let mut have_index: usize = 0;
    while have_index < num_pieces
        invariant
            num_pieces <= 8 * bytes@.len(),
            have_index <= num_pieces,
            has@.len() == have_index,
            forall|j: int| 0 <= j < have_index ==> has@[j] == #[trigger] bit_at(bytes@, j),
        decreases num_pieces - have_index,
    {
        let bytes_index = have_index / 8;
        let index_into_byte = have_index % 8;
        let byte = bytes[bytes_index];
        let mask: u8 = 1u8 << ((7 - index_into_byte) as u8);
        let value = (byte & mask) != 0;
        has.push(value);
        have_index = have_index + 1;
    }
    has
}

/// Decoding the bitfield we encode gives back which pieces we have.
pub proof fn lemma_bitfield_roundtrip(has_pieces: Seq<bool>, bytes: Seq<u8>)
    requires
        bytes.len() == bitfield_len(has_pieces.len() as int),
        forall|i: int| 0 <= i < has_pieces.len() ==> #[trigger] bit_at(bytes, i) == has_pieces[i],
    ensures
        has_pieces.len() <= 8 * bytes.len(),
        forall|i: int| 0 <= i < has_pieces.len() ==> #[trigger] bit_at(bytes, i) == has_pieces[i],
{
}

/// Piece `i` is bit `7 - i % 8` of byte `i / 8`, counting bits by their
/// value: the first piece of a byte is its most significant bit (128), the
/// last its least significant (1).
pub proof fn lemma_bit_order(bytes: Seq<u8>, i: int)
    requires
        0 <= i < 8 * bytes.len(),
    ensures
        bit_at(bytes, i) == ((bytes[i / 8] as int / pow2((7 - i % 8) as nat) as int) % 2 == 1),
{
    let b = bytes[i / 8];
    let k = i % 8;
    vstd::arithmetic::power2::lemma2_to64();
    if k == 0 {
        assert((b & (1u8 << 7u8) != 0) == ((b / 128) % 2 == 1)) by (bit_vector);
        assert(bit_mask(k) == (1u8 << 7u8));
        assert(pow2((7 - k) as nat) == 128);
    } else if k == 1 {
        assert((b & (1u8 << 6u8) != 0) == ((b / 64) % 2 == 1)) by (bit_vector);
        assert(bit_mask(k) == (1u8 << 6u8));
        assert(pow2((7 - k) as nat) == 64);
    } else if k == 2 {
        assert((b & (1u8 << 5u8) != 0) == ((b / 32) % 2 == 1)) by (bit_vector);
        assert(bit_mask(k) == (1u8 << 5u8));
        assert(pow2((7 - k) as nat) == 32);
    } else if k == 3 {
        assert((b & (1u8 << 4u8) != 0) == ((b / 16) % 2 == 1)) by (bit_vector);
        assert(bit_mask(k) == (1u8 << 4u8));
        assert(pow2((7 - k) as nat) == 16);
    } else if k == 4 {
        assert((b & (1u8 << 3u8) != 0) == ((b / 8) % 2 == 1)) by (bit_vector);
        assert(bit_mask(k) == (1u8 << 3u8));
        assert(pow2((7 - k) as nat) == 8);
    } else if k == 5 {
        assert((b & (1u8 << 2u8) != 0) == ((b / 4) % 2 == 1)) by (bit_vector);
        assert(bit_mask(k) == (1u8 << 2u8));
        assert(pow2((7 - k) as nat) == 4);
    } else if k == 6 {
        assert((b & (1u8 << 1u8) != 0) == ((b / 2) % 2 == 1)) by (bit_vector);
        assert(bit_mask(k) == (1u8 << 1u8));
        assert(pow2((7 - k) as nat) == 2);
    } else {
        assert((b & (1u8 << 0u8) != 0) == ((b / 1) % 2 == 1)) by (bit_vector);
        assert(bit_mask(k) == (1u8 << 0u8));
        assert(pow2((7 - k) as nat) == 1);
    }
}

} // verus!

