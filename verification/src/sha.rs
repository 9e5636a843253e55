use vstd::prelude::*;

verus! {


/// Length in bytes of a SHA-1 based identifier.
pub const SHA_HASH_LEN: usize = 20;

/// Length of an info hash.
pub const INFO_HASH_LEN: usize = 20;

/// Length of a DHT node id.
pub const NODE_ID_LEN: usize = 20;

/// Length of a peer id.
pub const PEER_ID_LEN: usize = 20;

/// A 20 byte SHA-1 sized identifier.
pub type ShaHash = [u8; 20];

/// Identifier of a torrent.
pub type InfoHash = [u8; 20];

/// Identifier of a DHT node.
pub type NodeId = [u8; 20];

/// Identifier of a peer.
pub type PeerId = [u8; 20];

/// Byte-wise equality of two hashes.
pub fn hash_eq(a: &ShaHash, b: &ShaHash) -> (r: bool)
    ensures
        r == (a@ == b@),
{
    let mut i: usize = 0;
    while i < 20
        invariant
            i <= 20,
            forall|j: int| 0 <= j < i ==> a@[j] == b@[j],
        decreases 20 - i,
    {
        if a[i] != b[i] {
            return false;
        }
        i = i + 1;
    }
    assert(a@ =~= b@);
    true
}


/// The SHA-1 digest of a byte string, as the `sha1` crate computes it.
pub uninterp spec fn sha1_digest(data: Seq<u8>) -> Seq<u8>;

/// Calls `sha1::Sha1` (`new`, `update`, `digest().bytes()`); the contract
/// states that the 20 returned bytes are the SHA-1 digest of `data`, which is
/// named and not written out.
#[verifier::external_body]
pub fn sha1_bytes(data: &[u8]) -> (r: ShaHash)
    ensures
        r@ == sha1_digest(data@),
{
    let mut m = sha1::Sha1::new();
    m.update(data);
    m.digest().bytes()
}


/// Lower-case hexadecimal digit.
pub open spec fn hex_digit_lower(n: int) -> char {
    if n < 10 { (('0' as int) + n) as char } else { (('a' as int) + n - 10) as char }
}

/// Upper-case hexadecimal digit.
pub open spec fn hex_digit_upper(n: int) -> char {
    if n < 10 { (('0' as int) + n) as char } else { (('A' as int) + n - 10) as char }
}

/// Lower-case hexadecimal rendering of bytes, two digits per byte.
pub open spec fn hex_lower(s: Seq<u8>) -> Seq<char>
    decreases s.len(),
{
    if s.len() == 0 {
        Seq::empty()
    } else {
        hex_lower(s.drop_last()) + seq![hex_digit_lower(s.last() as int / 16), hex_digit_lower(s.last() as int % 16)]
    }
}

/// The byte is an ASCII letter or digit.
pub open spec fn is_alphanumeric(b: u8) -> bool {
    (0x30 <= b <= 0x39) || (0x41 <= b <= 0x5a) || (0x61 <= b <= 0x7a)
}

/// Percent-encoding of bytes where every byte but ASCII letters and digits is
/// written as `%` and two upper-case hexadecimal digits.
pub open spec fn percent_encoded(s: Seq<u8>) -> Seq<char>
    decreases s.len(),
{
    if s.len() == 0 {
        Seq::empty()
    } else {
        let b = s.last();
        percent_encoded(s.drop_last()) + if is_alphanumeric(b) {
            seq![b as char]
        } else {
            seq!['%', hex_digit_upper(b as int / 16), hex_digit_upper(b as int % 16)]
        }
    }
}

/// Calls `percent_encoding::percent_encode` with `NON_ALPHANUMERIC` and
/// collects the result; the contract states the encoding the crate documents
/// for that set: letters and digits are kept, every other byte becomes `%XX`
/// with upper-case hexadecimal digits.
#[verifier::external_body]
pub fn percent_encode_non_alphanumeric(input: &[u8]) -> (r: String)
    ensures
        r@ == percent_encoded(input@),
{
    percent_encoding::percent_encode(input, percent_encoding::NON_ALPHANUMERIC).to_string()
}

/// Every byte is ASCII.
pub open spec fn all_ascii(s: Seq<u8>) -> bool {
    forall|i: int| 0 <= i < s.len() ==> s[i] < 128
}

/// The characters of ASCII bytes.
pub open spec fn ascii_chars(s: Seq<u8>) -> Seq<char> {
    Seq::new(s.len(), |i: int| s[i] as char)
}

/// Calls `String::from_utf8` on bytes that are all ASCII, which the standard
/// library documents as succeeding with one character per byte.
#[verifier::external_body]
pub fn ascii_to_string(bytes: Vec<u8>) -> (r: String)
    requires
        all_ascii(bytes@),
    ensures
        r@ == ascii_chars(bytes@),
{
    String::from_utf8(bytes).unwrap()
}

fn hex_digit_byte_lower(n: u8) -> (r: u8)
    requires
        n < 16,
    ensures
        r < 128,
        r as char == hex_digit_lower(n as int),
{
    if n < 10 { 0x30 + n } else { 0x61 + n - 10 }
}

/// Lower-case hexadecimal rendering of the bytes.
pub fn to_hex_lower(data: &[u8]) -> (r: String)
    requires
        2 * data@.len() <= usize::MAX,
    ensures
        r@ == hex_lower(data@),
{
    let mut out: Vec<u8> = Vec::new();
    let mut i: usize = 0;
    while i < data.len()
        invariant
            i <= data@.len(),
            out@.len() == 2 * i,
            all_ascii(out@),
            ascii_chars(out@) == hex_lower(data@.take(i as int)),
        decreases data@.len() - i,
    {
        let ghost before = out@;
        out.push(hex_digit_byte_lower(data[i] / 16));
        out.push(hex_digit_byte_lower(data[i] % 16));
        proof {
            assert(data@.take(i + 1).drop_last() =~= data@.take(i as int));
            assert(ascii_chars(out@) =~= ascii_chars(before) + seq![hex_digit_lower(data@[i as int] as int / 16), hex_digit_lower(data@[i as int] as int % 16)]);
        }
        i = i + 1;
    }
    assert(data@.take(i as int) =~= data@);
    ascii_to_string(out)
}

} // verus!
