use vstd::prelude::*;

verus! {

/// A decoded bencode value.
#[derive(Debug)]
pub enum Bencode {
    Int(i64),
    Bytes(Vec<u8>),
    List(Vec<Bencode>),
    /// Entries in the order they were decoded.
    Dict(Vec<(Vec<u8>, Bencode)>),
}

/// Error converting a bencode value to the type a message field needs.
#[derive(Debug)]
pub enum BencodeConvertError {
    /// The key is missing from the dictionary.
    MissingKey { key: Vec<u8> },
    /// The value under the key has another type.
    WrongType { key: Vec<u8>, expected_type: Vec<u8> },
}

/// Position of the first entry with the given key.
#[verifier::opaque]
pub open spec fn first_index_of(entries: Seq<(Vec<u8>, Bencode)>, key: Seq<u8>) -> Option<int> {
    if exists|i: int| 0 <= i < entries.len() && entries[i].0@ == key {
        Some(choose|i: int| 0 <= i < entries.len() && entries[i].0@ == key && forall|j: int| 0 <= j < i ==> entries[j].0@ != key)
    } else {
        None
    }
}

/// The value of the first entry with the given key.
pub open spec fn dict_get(entries: Seq<(Vec<u8>, Bencode)>, key: Seq<u8>) -> Option<Bencode> {
    match first_index_of(entries, key) {
        Some(i) => Some(entries[i].1),
        None => None,
    }
}

fn bytes_eq(a: &[u8], b: &[u8]) -> (r: bool)
    ensures
        r == (a@ == b@),
{
    if a.len() != b.len() {
        return false;
    }
    let mut i: usize = 0;
    while i < a.len()
        invariant
            a@.len() == b@.len(),
            i <= a@.len(),
            forall|j: int| 0 <= j < i ==> a@[j] == b@[j],
        decreases a@.len() - i,
    {
        if a[i] != b[i] {
            return false;
        }
        i = i + 1;
    }
    assert(a@ =~= b@);
    true
}

/// Looks up the first entry with the given key.
pub fn dict_lookup<'a>(entries: &'a Vec<(Vec<u8>, Bencode)>, key: &[u8]) -> (r: Option<&'a Bencode>)
    ensures
        match r {
            Some(b) => dict_get(entries@, key@) == Some(*b),
            None => dict_get(entries@, key@) is None,
        },
{
    let mut i: usize = 0;
    while i < entries.len()
        invariant
            i <= entries@.len(),
            forall|j: int| 0 <= j < i ==> entries@[j].0@ != key@,
        decreases entries@.len() - i,
    {
        if bytes_eq(entries[i].0.as_slice(), key) {
            proof {
                reveal(first_index_of);
                let w = choose|w: int| 0 <= w < entries@.len() && entries@[w].0@ == key@ && forall|j: int| 0 <= j < w ==> entries@[j].0@ != key@;
                assert(w == i as int) by {
                    if w < i {
                    } else if w > i {
                        assert(entries@[i as int].0@ == key@);
                    }
                }
            }
            return Some(&entries[i].1);
        }
        i = i + 1;
    }
    proof {
        reveal(first_index_of);
    }
    None
}

/// The dictionary has the key.
pub fn dict_contains(entries: &Vec<(Vec<u8>, Bencode)>, key: &[u8]) -> (r: bool)
    ensures
        r == (dict_get(entries@, key@) is Some),
{
    match dict_lookup(entries, key) {
        Some(_) => true,
        None => false,
    }
}

/// Looks up a dictionary under the key.
pub fn lookup_and_convert_dict<'a>(entries: &'a Vec<(Vec<u8>, Bencode)>, key: &[u8]) -> (r: Result<&'a Vec<(Vec<u8>, Bencode)>, BencodeConvertError>)
    ensures
        match dict_get(entries@, key@) {
            None => r matches Err(BencodeConvertError::MissingKey { key: k }) && k@ == key@,
            Some(Bencode::Dict(d)) => r matches Ok(v) && *v == d,
            Some(_) => r matches Err(BencodeConvertError::WrongType { key: k, expected_type: t }) && k@ == key@ && t@ == dict_type_name(),
        },
{
    match dict_lookup(entries, key) {
        None => Err(BencodeConvertError::MissingKey { key: vstd::slice::slice_to_vec(key) }),
        Some(Bencode::Dict(d)) => Ok(d),
        Some(_) => Err(BencodeConvertError::WrongType { key: vstd::slice::slice_to_vec(key), expected_type: dict_type_name_bytes() }),
    }
}

/// Looks up a byte string under the key.
pub fn lookup_and_convert_bytes<'a>(entries: &'a Vec<(Vec<u8>, Bencode)>, key: &[u8]) -> (r: Result<&'a [u8], BencodeConvertError>)
    ensures
        match dict_get(entries@, key@) {
            None => r matches Err(BencodeConvertError::MissingKey { key: k }) && k@ == key@,
            Some(Bencode::Bytes(b)) => r matches Ok(v) && v@ == b@,
            Some(_) => r matches Err(BencodeConvertError::WrongType { key: k, expected_type: t }) && k@ == key@ && t@ == bytes_type_name(),
        },
{
    match dict_lookup(entries, key) {
        None => Err(BencodeConvertError::MissingKey { key: vstd::slice::slice_to_vec(key) }),
        Some(Bencode::Bytes(b)) => Ok(b.as_slice()),
        Some(_) => Err(BencodeConvertError::WrongType { key: vstd::slice::slice_to_vec(key), expected_type: bytes_type_name_bytes() }),
    }
}

/// Looks up a list under the key.
pub fn lookup_and_convert_list<'a>(entries: &'a Vec<(Vec<u8>, Bencode)>, key: &[u8]) -> (r: Result<&'a Vec<Bencode>, BencodeConvertError>)
    ensures
        match dict_get(entries@, key@) {
            None => r matches Err(BencodeConvertError::MissingKey { key: k }) && k@ == key@,
            Some(Bencode::List(l)) => r matches Ok(v) && *v == l,
            Some(_) => r matches Err(BencodeConvertError::WrongType { key: k, expected_type: t }) && k@ == key@ && t@ == list_type_name(),
        },
{
    match dict_lookup(entries, key) {
        None => Err(BencodeConvertError::MissingKey { key: vstd::slice::slice_to_vec(key) }),
        Some(Bencode::List(l)) => Ok(l),
        Some(_) => Err(BencodeConvertError::WrongType { key: vstd::slice::slice_to_vec(key), expected_type: list_type_name_bytes() }),
    }
}

pub open spec fn list_type_name() -> Seq<u8> {
    seq![0x4cu8, 0x69, 0x73, 0x74]
}

fn list_type_name_bytes() -> (r: Vec<u8>)
    ensures
        r@ == list_type_name(),
{
    let r = vec![0x4cu8, 0x69, 0x73, 0x74];
    assert(r@ =~= list_type_name());
    r
}

pub open spec fn dict_type_name() -> Seq<u8> {
    seq![0x44u8, 0x69, 0x63, 0x74]
}

pub open spec fn bytes_type_name() -> Seq<u8> {
    seq![0x42u8, 0x79, 0x74, 0x65, 0x73]
}

fn dict_type_name_bytes() -> (r: Vec<u8>)
    ensures
        r@ == dict_type_name(),
{
    let r = vec![0x44u8, 0x69, 0x63, 0x74];
    assert(r@ =~= dict_type_name());
    r
}

fn bytes_type_name_bytes() -> (r: Vec<u8>)
    ensures
        r@ == bytes_type_name(),
{
    let r = vec![0x42u8, 0x79, 0x74, 0x65, 0x73];
    assert(r@ =~= bytes_type_name());
    r
}

// ---------------------------------------------------------------------------
// Encoding.

/// Decimal digits of a natural number, most significant first.
pub open spec fn decimal(n: nat) -> Seq<u8>
    decreases n,
{
    if n < 10 {
        seq![(0x30 + n) as u8]
    } else {
        decimal(n / 10).push((0x30 + n % 10) as u8)
    }
}

/// The decimal digits of `n` in ASCII.
pub fn usize_to_decimal(n: usize) -> (r: Vec<u8>)
    ensures
        r@ == decimal(n as nat),
    decreases n,
{
    if n < 10 {
        let r = vec![(0x30 + n) as u8];
        assert(r@ =~= decimal(n as nat));
        r
    } else {
        let mut r = usize_to_decimal(n / 10);
        r.push((0x30 + n % 10) as u8);
        r
    }
}

/// Bencoding of a byte string: its length in decimal, `:`, then the bytes.
pub open spec fn encoded_bytes(b: Seq<u8>) -> Seq<u8> {
    decimal(b.len()) + seq![0x3au8] + b
}

/// Appends `w` to `v`.
pub fn extend(v: &mut Vec<u8>, w: &[u8])
    ensures
        final(v)@ == old(v)@ + w@,
{
    let mut i: usize = 0;
    let ghost start = v@;
    while i < w.len()
        invariant
            i <= w@.len(),
            v@ == start + w@.take(i as int),
        decreases w@.len() - i,
    {
        v.push(w[i]);
        i = i + 1;
        proof {
            assert(w@.take(i as int) =~= w@.take(i - 1).push(w@[i - 1]));
        }
    }
    assert(w@.take(w@.len() as int) =~= w@);
}

/// Appends the bencoding of a byte string.
pub fn push_encoded_bytes(out: &mut Vec<u8>, b: &[u8])
    ensures
        final(out)@ == old(out)@ + encoded_bytes(b@),
{
    let digits = usize_to_decimal(b.len());
    extend(out, digits.as_slice());
    out.push(0x3a);
    extend(out, b);
    assert(final(out)@ =~= old(out)@ + encoded_bytes(b@));
}

} // verus!
