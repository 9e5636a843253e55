use vstd::prelude::*;

use crate::dht::bencode::{Bencode, dict_get, dict_lookup};
use crate::sha::{all_ascii, ascii_chars};

verus! {

/// Why a bencoded value does not have the shape a field needs.
#[derive(Debug, Clone, Copy, PartialEq, Eq, Structural)]
pub enum DecoderError {
    NotADict,
    NotAByteString,
    NotANumber,
    NotAList,
    /// A string field whose bytes are not UTF-8.
    NotUtf8,
    /// A required field is missing.
    DoesntContain,
    /// The file lengths of a torrent add up past 64 bits.
    Overflow,
}

/// The text that `String::from_utf8` decodes from the bytes, if they are
/// UTF-8.
pub uninterp spec fn utf8_decode(bytes: Seq<u8>) -> Option<Seq<char>>;

/// Calls `String::from_utf8` on a copy of the bytes. The result is named:
/// `Some` of the decoded text when the bytes are UTF-8, `None` otherwise;
/// the standard library documents that ASCII bytes are UTF-8, one
/// character per byte, which the second clause states.
#[verifier::external_body]
pub fn utf8_string(bytes: &[u8]) -> (r: Option<String>)
    ensures
        r matches Some(s) ==> utf8_decode(bytes@) == Some(s@),
        r is None ==> utf8_decode(bytes@) is None,
        r is Some || !all_ascii(bytes@),
        r matches Some(s) ==> (all_ascii(bytes@) ==> s@ == ascii_chars(bytes@)),
{
    String::from_utf8(bytes.to_vec()).ok()
}

// ---------------------------------------------------------------------------
// Field readers. A missing field reads as `None`; a field of the wrong
// type is an error.

/// What reading a string field gives.
pub open spec fn str_field(d: Seq<(Vec<u8>, Bencode)>, key: Seq<u8>) -> Result<Option<Seq<char>>, DecoderError> {
    match dict_get(d, key) {
        None => Ok(None),
        Some(Bencode::Bytes(b)) => match utf8_decode(b@) {
            Some(s) => Ok(Some(s)),
            None => Err(DecoderError::NotUtf8),
        },
        Some(_) => Err(DecoderError::NotAByteString),
    }
}

/// What reading a non-negative number field gives.
pub open spec fn u64_field(d: Seq<(Vec<u8>, Bencode)>, key: Seq<u8>) -> Result<Option<u64>, DecoderError> {
    match dict_get(d, key) {
        None => Ok(None),
        Some(Bencode::Int(n)) => if n >= 0 { Ok(Some(n as u64)) } else { Err(DecoderError::NotANumber) },
        Some(_) => Err(DecoderError::NotANumber),
    }
}

/// What reading a byte string field gives.
pub open spec fn bytes_field(d: Seq<(Vec<u8>, Bencode)>, key: Seq<u8>) -> Result<Option<Seq<u8>>, DecoderError> {
    match dict_get(d, key) {
        None => Ok(None),
        Some(Bencode::Bytes(b)) => Ok(Some(b@)),
        Some(_) => Err(DecoderError::NotAByteString),
    }
}

/// The string a value is, if it is a UTF-8 byte string.
pub open spec fn str_value(b: Bencode) -> Result<Seq<char>, DecoderError> {
    match b {
        Bencode::Bytes(v) => match utf8_decode(v@) {
            Some(s) => Ok(s),
            None => Err(DecoderError::NotUtf8),
        },
        _ => Err(DecoderError::NotAByteString),
    }
}

/// Every value of the list is a UTF-8 byte string.
pub open spec fn all_strings(l: Seq<Bencode>) -> bool {
    forall|i: int| 0 <= i < l.len() ==> (#[trigger] str_value(l[i])) is Ok
}

/// The strings of the list, one per value.
pub open spec fn strings_match(l: Seq<Bencode>, r: Seq<String>) -> bool {
    r.len() == l.len() && forall|i: int| 0 <= i < l.len() ==> str_value(l[i]) == Ok::<Seq<char>, DecoderError>((#[trigger] r[i])@)
}

/// The string field reads as a string; when it is optional, also when it
/// is missing.
pub open spec fn str_ok(d: Seq<(Vec<u8>, Bencode)>, key: Seq<u8>, required: bool) -> bool {
    match str_field(d, key) {
        Ok(Some(_)) => true,
        Ok(None) => !required,
        Err(_) => false,
    }
}

/// The number field reads as a number; when it is optional, also when it
/// is missing.
pub open spec fn u64_ok(d: Seq<(Vec<u8>, Bencode)>, key: Seq<u8>, required: bool) -> bool {
    match u64_field(d, key) {
        Ok(Some(_)) => true,
        Ok(None) => !required,
        Err(_) => false,
    }
}

/// The byte string field reads as bytes; when it is optional, also when
/// it is missing.
pub open spec fn bytes_ok(d: Seq<(Vec<u8>, Bencode)>, key: Seq<u8>, required: bool) -> bool {
    match bytes_field(d, key) {
        Ok(Some(_)) => true,
        Ok(None) => !required,
        Err(_) => false,
    }
}

/// The optional string-list field is missing or a list of strings.
pub open spec fn str_list_ok(d: Seq<(Vec<u8>, Bencode)>, key: Seq<u8>) -> bool {
    match dict_get(d, key) {
        None => true,
        Some(Bencode::List(l)) => all_strings(l@),
        Some(_) => false,
    }
}

/// The optional field is missing or a list of lists of strings.
pub open spec fn str_list_list_ok(d: Seq<(Vec<u8>, Bencode)>, key: Seq<u8>) -> bool {
    match dict_get(d, key) {
        None => true,
        Some(Bencode::List(l)) => string_lists_ok(l@),
        Some(_) => false,
    }
}

/// Reads a string field.
pub fn get_str(d: &Vec<(Vec<u8>, Bencode)>, key: &[u8]) -> (r: Result<Option<String>, DecoderError>)
    ensures
        match (r, str_field(d@, key@)) {
            (Ok(Some(s)), Ok(Some(t))) => s@ == t,
            (Ok(None), Ok(None)) => true,
            (Err(e), Err(f)) => e == f,
            _ => false,
        },
{
    match dict_lookup(d, key) {
        None => Ok(None),
        Some(Bencode::Bytes(b)) => match utf8_string(b.as_slice()) {
            Some(s) => Ok(Some(s)),
            None => Err(DecoderError::NotUtf8),
        },
        Some(_) => Err(DecoderError::NotAByteString),
    }
}

/// Reads a non-negative number field.
pub fn get_u64(d: &Vec<(Vec<u8>, Bencode)>, key: &[u8]) -> (r: Result<Option<u64>, DecoderError>)
    ensures
        r == u64_field(d@, key@),
{
    match dict_lookup(d, key) {
        None => Ok(None),
        Some(Bencode::Int(n)) => if *n >= 0 { Ok(Some(*n as u64)) } else { Err(DecoderError::NotANumber) },
        Some(_) => Err(DecoderError::NotANumber),
    }
}

/// Reads a byte string field.
pub fn get_bytes<'a>(d: &'a Vec<(Vec<u8>, Bencode)>, key: &[u8]) -> (r: Result<Option<&'a [u8]>, DecoderError>)
    ensures
        match (r, bytes_field(d@, key@)) {
            (Ok(Some(s)), Ok(Some(t))) => s@ == t,
            (Ok(None), Ok(None)) => true,
            (Err(e), Err(f)) => e == f,
            _ => false,
        },
{
    match dict_lookup(d, key) {
        None => Ok(None),
        Some(Bencode::Bytes(b)) => Ok(Some(b.as_slice())),
        Some(_) => Err(DecoderError::NotAByteString),
    }
}

/// Reads every value of a list as a string.
pub fn strings_of(l: &Vec<Bencode>) -> (r: Result<Vec<String>, DecoderError>)
    ensures
        match r {
            Ok(v) => all_strings(l@) && strings_match(l@, v@),
            Err(e) => exists|i: int| 0 <= i < l@.len() && (#[trigger] str_value(l@[i])) == Err::<Seq<char>, DecoderError>(e)
                && forall|j: int| 0 <= j < i ==> (#[trigger] str_value(l@[j])) is Ok,
        },
{
    let mut out: Vec<String> = Vec::new();
    let mut i: usize = 0;
    while i < l.len()
        invariant
            i <= l@.len(),
            out@.len() == i,
            forall|j: int| 0 <= j < i ==> str_value(l@[j]) == Ok::<Seq<char>, DecoderError>((#[trigger] out@[j])@),
        decreases l@.len() - i,
    {
        match &l[i] {
            Bencode::Bytes(b) => match utf8_string(b.as_slice()) {
                Some(s) => {
                    out.push(s);
                },
                None => {
                    assert(str_value(l@[i as int]) == Err::<Seq<char>, DecoderError>(DecoderError::NotUtf8));
                    assert forall|j: int| 0 <= j < i implies (#[trigger] str_value(l@[j])) is Ok by {
                        assert(str_value(l@[j]) == Ok::<Seq<char>, DecoderError>(out@[j]@));
                    }
                    return Err(DecoderError::NotUtf8);
                },
            },
            _ => {
                assert(str_value(l@[i as int]) == Err::<Seq<char>, DecoderError>(DecoderError::NotAByteString));
                assert forall|j: int| 0 <= j < i implies (#[trigger] str_value(l@[j])) is Ok by {
                    assert(str_value(l@[j]) == Ok::<Seq<char>, DecoderError>(out@[j]@));
                }
                return Err(DecoderError::NotAByteString);
            },
        }
        i = i + 1;
    }
    assert forall|j: int| 0 <= j < l@.len() implies (#[trigger] str_value(l@[j])) is Ok by {
        assert(str_value(l@[j]) == Ok::<Seq<char>, DecoderError>(out@[j]@));
    }
    Ok(out)
}

/// Reads a field holding a list of strings.
pub fn get_str_list(d: &Vec<(Vec<u8>, Bencode)>, key: &[u8]) -> (r: Result<Option<Vec<String>>, DecoderError>)
    ensures
        match dict_get(d@, key@) {
            None => r matches Ok(None),
            Some(Bencode::List(l)) => match r {
                Ok(Some(v)) => all_strings(l@) && strings_match(l@, v@),
                Ok(None) => false,
                Err(_) => !all_strings(l@),
            },
            Some(_) => r == Err::<Option<Vec<String>>, DecoderError>(DecoderError::NotAList),
        },
{
    match dict_lookup(d, key) {
        None => Ok(None),
        Some(Bencode::List(l)) => {
            let v = strings_of(l)?;
            Ok(Some(v))
        },
        Some(_) => Err(DecoderError::NotAList),
    }
}

/// The value is a list of lists of strings.
pub open spec fn string_lists_ok(l: Seq<Bencode>) -> bool {
    forall|i: int| 0 <= i < l.len() ==> match #[trigger] l[i] {
        Bencode::List(inner) => all_strings(inner@),
        _ => false,
    }
}

/// Reads a field holding a list of lists of strings, such as an announce
/// list.
pub fn get_str_list_list(d: &Vec<(Vec<u8>, Bencode)>, key: &[u8]) -> (r: Result<Option<Vec<Vec<String>>>, DecoderError>)
    ensures
        match dict_get(d@, key@) {
            None => r matches Ok(None),
            Some(Bencode::List(l)) => match r {
                Ok(Some(v)) => string_lists_ok(l@) && v@.len() == l@.len()
                    && forall|i: int| 0 <= i < l@.len() ==> match #[trigger] l@[i] {
                        Bencode::List(inner) => strings_match(inner@, v@[i]@),
                        _ => false,
                    },
                Ok(None) => false,
                Err(_) => !string_lists_ok(l@),
            },
            Some(_) => r == Err::<Option<Vec<Vec<String>>>, DecoderError>(DecoderError::NotAList),
        },
{
    match dict_lookup(d, key) {
        None => Ok(None),
        Some(Bencode::List(l)) => {
            let mut out: Vec<Vec<String>> = Vec::new();
            let mut i: usize = 0;
            while i < l.len()
                invariant
                    i <= l@.len(),
                    out@.len() == i,
                    dict_get(d@, key@) == Some(Bencode::List(*l)),
                    forall|j: int| 0 <= j < i ==> match #[trigger] l@[j] {
                        Bencode::List(inner) => all_strings(inner@) && strings_match(inner@, out@[j]@),
                        _ => false,
                    },
                decreases l@.len() - i,
            {
                match &l[i] {
                    Bencode::List(inner) => {
                        match strings_of(inner) {
                            Ok(v) => {
                                out.push(v);
                            },
                            Err(e) => {
                                assert(!string_lists_ok(l@)) by {
                                    assert(l@[i as int] == Bencode::List(*inner));
                                }
                                return Err(e);
                            },
                        }
                    },
                    _ => {
                        assert(!string_lists_ok(l@)) by {
                            assert(!(l@[i as int] is List));
                        }
                        return Err(DecoderError::NotAList);
                    },
                }
                i = i + 1;
            }
            Ok(Some(out))
        },
        Some(_) => Err(DecoderError::NotAList),
    }
}

} // verus!
