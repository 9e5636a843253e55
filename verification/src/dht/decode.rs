use vstd::prelude::*;

use crate::dht::bencode::{Bencode, decimal, encoded_bytes};

verus! {

// ---------------------------------------------------------------------------
// The encoding.

/// ASCII `-`.
pub const MINUS: u8 = 0x2d;

/// Decimal text of an integer, with a `-` when it is negative.
pub open spec fn int_text(n: int) -> Seq<u8> {
    if n < 0 { seq![MINUS] + decimal((-n) as nat) } else { decimal(n as nat) }
}

/// The bencoding of a value: `i<n>e`, `<len>:<bytes>`, `l<items>e` or
/// `d<key><value>...e`, entries in the order they are held.
pub open spec fn encode(b: Bencode) -> Seq<u8>
    decreases b,
{
    match b {
        Bencode::Int(n) => seq![0x69u8] + int_text(n as int) + seq![0x65u8],
        Bencode::Bytes(v) => encoded_bytes(v@),
        Bencode::List(l) => seq![0x6cu8] + encode_list(l@) + seq![0x65u8],
        Bencode::Dict(d) => seq![0x64u8] + encode_dict(d@) + seq![0x65u8],
    }
}

/// The encodings of the items, one after another.
pub open spec fn encode_list(s: Seq<Bencode>) -> Seq<u8>
    decreases s,
{
    if s.len() == 0 {
        Seq::empty()
    } else {
        encode_list(s.drop_last()) + encode(s.last())
    }
}

/// The encodings of the keys and values, one after another.
pub open spec fn encode_dict(s: Seq<(Vec<u8>, Bencode)>) -> Seq<u8>
    decreases s,
{
    if s.len() == 0 {
        Seq::empty()
    } else {
        encode_dict(s.drop_last()) + encoded_bytes(s.last().0@) + encode(s.last().1)
    }
}

// ---------------------------------------------------------------------------
// Digits.

/// ASCII decimal digit.
pub open spec fn is_digit(b: u8) -> bool {
    0x30 <= b <= 0x39
}

/// Value of a string of decimal digits.
pub open spec fn digits_value(ds: Seq<u8>) -> nat
    decreases ds.len(),
{
    if ds.len() == 0 {
        0
    } else {
        digits_value(ds.drop_last()) * 10 + (ds.last() - 0x30) as nat
    }
}

/// A non-empty string of digits without a leading zero (but `0` itself).
pub open spec fn canonical_digits(ds: Seq<u8>) -> bool {
    &&& ds.len() > 0
    &&& forall|i: int| 0 <= i < ds.len() ==> is_digit(#[trigger] ds[i])
    &&& ds.len() > 1 ==> ds[0] != 0x30
}

proof fn lemma_digits_positive(ds: Seq<u8>)
    requires
        ds.len() > 0,
        forall|i: int| 0 <= i < ds.len() ==> is_digit(#[trigger] ds[i]),
        ds[0] != 0x30,
    ensures
        digits_value(ds) >= 1,
    decreases ds.len(),
{
    if ds.len() > 1 {
        lemma_digits_positive(ds.drop_last());
    }
}

proof fn lemma_decimal_of_digits(ds: Seq<u8>)
    requires
        canonical_digits(ds),
    ensures
        decimal(digits_value(ds)) == ds,
    decreases ds.len(),
{
    if ds.len() == 1 {
        assert(digits_value(ds.drop_last()) == 0);
        assert(is_digit(ds[0]));
        assert(digits_value(ds) == (ds[0] - 0x30) as nat);
        assert(decimal(digits_value(ds)) =~= ds);
    } else {
        let p = ds.drop_last();
        assert(canonical_digits(p)) by {
            assert forall|i: int| 0 <= i < p.len() implies is_digit(#[trigger] p[i]) by {
                assert(p[i] == ds[i]);
            }
        }
        lemma_decimal_of_digits(p);
        lemma_digits_positive(p);
        let v = digits_value(ds);
        let d = (ds.last() - 0x30) as nat;
        assert(is_digit(ds[ds.len() - 1]));
        assert(v == digits_value(p) * 10 + d);
        assert(v >= 10);
        assert(v / 10 == digits_value(p)) by (nonlinear_arith)
            requires
                v == digits_value(p) * 10 + d,
                d < 10,
        ;
        assert(v % 10 == d) by (nonlinear_arith)
            requires
                v == digits_value(p) * 10 + d,
                d < 10,
        ;
        assert(decimal(v) =~= ds);
    }
}

/// Why bytes are not a bencoded value.
#[derive(Debug, Clone, Copy, PartialEq, Eq, Structural)]
pub enum DecodeError {
    /// The input ended inside a value.
    UnexpectedEnd,
    /// A byte that no value can start with or contain at this position.
    InvalidByte(usize),
    /// A number with a leading zero, or a negative zero.
    NonCanonicalNumber(usize),
    /// A number too large for its type.
    Overflow(usize),
    /// Lists and dictionaries nested too deeply.
    ExceededDepth,
    /// Bytes after the value.
    TrailingBytes(usize),
}

/// Deepest nesting of lists and dictionaries accepted.
pub const MAX_DEPTH: usize = 50;

/// The value nests lists and dictionaries no deeper than the decoder
/// accepts, with `depth` of them already around it.
pub open spec fn fits_depth(b: Bencode, depth: nat) -> bool
    decreases b,
{
    match b {
        Bencode::Int(_) => true,
        Bencode::Bytes(_) => true,
        Bencode::List(l) => depth < MAX_DEPTH && fits_list(l@, depth + 1),
        Bencode::Dict(d) => depth < MAX_DEPTH && fits_dict(d@, depth + 1),
    }
}

/// Every item fits at the given depth.
pub open spec fn fits_list(s: Seq<Bencode>, depth: nat) -> bool
    decreases s,
{
    if s.len() == 0 {
        true
    } else {
        fits_list(s.drop_last(), depth) && fits_depth(s.last(), depth)
    }
}

/// Every value fits at the given depth.
pub open spec fn fits_dict(s: Seq<(Vec<u8>, Bencode)>, depth: nat) -> bool
    decreases s,
{
    if s.len() == 0 {
        true
    } else {
        fits_dict(s.drop_last(), depth) && fits_depth(s.last().1, depth)
    }
}

/// The bytes are the bencoding of a value that the decoder accepts.
pub open spec fn decodable(s: Seq<u8>) -> bool {
    exists|v: Bencode| #[trigger] encode(v) == s && fits_depth(v, 0)
}

/// `e` stands in `s` from `pos` on.
pub open spec fn at(s: Seq<u8>, pos: int, e: Seq<u8>) -> bool {
    &&& 0 <= pos
    &&& pos + e.len() <= s.len()
    &&& s.subrange(pos, pos + e.len()) == e
}

proof fn lemma_at_concat(s: Seq<u8>, pos: int, a: Seq<u8>, b: Seq<u8>)
    requires
        at(s, pos, a + b),
    ensures
        at(s, pos, a),
        at(s, pos + a.len(), b),
{
    assert forall|i: int| 0 <= i < a.len() implies s.subrange(pos, pos + a.len())[i] == a[i] by {
        assert(s.subrange(pos, pos + (a + b).len())[i] == (a + b)[i]);
    }
    assert(s.subrange(pos, pos + a.len()) =~= a);
    assert forall|i: int| 0 <= i < b.len() implies s.subrange(pos + a.len(), pos + a.len() + b.len())[i] == b[i] by {
        assert(s.subrange(pos, pos + (a + b).len())[a.len() + i] == (a + b)[a.len() + i]);
    }
    assert(s.subrange(pos + a.len(), pos + a.len() + b.len()) =~= b);
}

proof fn lemma_at_index(s: Seq<u8>, pos: int, e: Seq<u8>, i: int)
    requires
        at(s, pos, e),
        0 <= i < e.len(),
    ensures
        s[pos + i] == e[i],
{
    assert(s.subrange(pos, pos + e.len())[i] == e[i]);
}

proof fn lemma_decimal_len(n: nat)
    ensures
        decimal(n).len() >= 1,
        decimal(n).len() == 1 <==> n < 10,
    decreases n,
{
    if n >= 10 {
        lemma_decimal_len(n / 10);
    }
}

proof fn lemma_decimal_digits(n: nat)
    ensures
        canonical_digits(decimal(n)),
        digits_value(decimal(n)) == n,
    decreases n,
{
    lemma_decimal_len(n);
    if n < 10 {
        let ds = decimal(n);
        assert(ds.drop_last() =~= Seq::<u8>::empty());
        assert(digits_value(ds) == digits_value(ds.drop_last()) * 10 + (ds.last() - 0x30) as nat);
    } else {
        let m = n / 10;
        lemma_decimal_digits(m);
        lemma_decimal_len(m);
        let p = decimal(m);
        let ds = decimal(n);
        assert(ds == p.push((0x30 + n % 10) as u8));
        assert(ds.drop_last() =~= p);
        assert forall|i: int| 0 <= i < ds.len() implies is_digit(#[trigger] ds[i]) by {
            if i < p.len() {
                assert(ds[i] == p[i]);
            }
        }
        assert(ds[0] == p[0]);
        if p.len() == 1 {
            assert(m < 10);
            assert(m >= 1);
            assert(p[0] == (0x30 + m) as u8);
        }
        assert(digits_value(ds) == m * 10 + n % 10);
    }
}

proof fn lemma_digits_prefix(ds: Seq<u8>, j: int)
    requires
        0 <= j <= ds.len(),
        forall|i: int| 0 <= i < ds.len() ==> is_digit(#[trigger] ds[i]),
    ensures
        digits_value(ds.take(j)) <= digits_value(ds),
    decreases ds.len(),
{
    if j < ds.len() {
        let p = ds.drop_last();
        assert forall|i: int| 0 <= i < p.len() implies is_digit(#[trigger] p[i]) by {
            assert(p[i] == ds[i]);
        }
        lemma_digits_prefix(p, j);
        assert(p.take(j) =~= ds.take(j));
        assert(is_digit(ds[ds.len() - 1]));
    } else {
        assert(ds.take(j) =~= ds);
    }
}

proof fn lemma_encode_start(b: Bencode)
    ensures
        encode(b).len() > 0,
        b is Int ==> encode(b)[0] == 0x69,
        b is Bytes ==> is_digit(encode(b)[0]),
        b is List ==> encode(b)[0] == 0x6c,
        b is Dict ==> encode(b)[0] == 0x64,
{
    match b {
        Bencode::Bytes(v) => {
            lemma_decimal_digits(v@.len());
            assert(encode(b)[0] == decimal(v@.len())[0]);
        },
        _ => {},
    }
}

proof fn lemma_encode_list_split(s: Seq<Bencode>, j: int)
    requires
        0 <= j <= s.len(),
    ensures
        encode_list(s) == encode_list(s.take(j)) + encode_list(s.skip(j)),
    decreases s.len(),
{
    if j == s.len() {
        assert(s.take(j) =~= s);
        assert(s.skip(j) =~= Seq::<Bencode>::empty());
        assert(encode_list(s) + Seq::<u8>::empty() =~= encode_list(s));
    } else {
        let p = s.drop_last();
        lemma_encode_list_split(p, j);
        assert(p.take(j) =~= s.take(j));
        assert(s.skip(j).drop_last() =~= p.skip(j));
        assert(s.skip(j).last() == s.last());
        assert(encode_list(s) =~= encode_list(s.take(j)) + encode_list(s.skip(j)));
    }
}

proof fn lemma_encode_list_step(s: Seq<Bencode>, k: int)
    requires
        0 <= k < s.len(),
    ensures
        encode_list(s.take(k + 1)) == encode_list(s.take(k)) + encode(s[k]),
{
    assert(s.take(k + 1).drop_last() =~= s.take(k));
    assert(s.take(k + 1).last() == s[k]);
}

proof fn lemma_encode_dict_split(s: Seq<(Vec<u8>, Bencode)>, j: int)
    requires
        0 <= j <= s.len(),
    ensures
        encode_dict(s) == encode_dict(s.take(j)) + encode_dict(s.skip(j)),
    decreases s.len(),
{
    if j == s.len() {
        assert(s.take(j) =~= s);
        assert(s.skip(j) =~= Seq::<(Vec<u8>, Bencode)>::empty());
        assert(encode_dict(s) + Seq::<u8>::empty() =~= encode_dict(s));
    } else {
        let p = s.drop_last();
        lemma_encode_dict_split(p, j);
        assert(p.take(j) =~= s.take(j));
        assert(s.skip(j).drop_last() =~= p.skip(j));
        assert(s.skip(j).last() == s.last());
        assert(encode_dict(s) =~= encode_dict(s.take(j)) + encode_dict(s.skip(j)));
    }
}

proof fn lemma_encode_dict_step(s: Seq<(Vec<u8>, Bencode)>, k: int)
    requires
        0 <= k < s.len(),
    ensures
        encode_dict(s.take(k + 1)) == encode_dict(s.take(k)) + encoded_bytes(s[k].0@) + encode(s[k].1),
{
    assert(s.take(k + 1).drop_last() =~= s.take(k));
    assert(s.take(k + 1).last() == s[k]);
}

proof fn lemma_fits_list_at(s: Seq<Bencode>, depth: nat, k: int)
    requires
        fits_list(s, depth),
        0 <= k < s.len(),
    ensures
        fits_depth(s[k], depth),
    decreases s.len(),
{
    if k < s.len() - 1 {
        lemma_fits_list_at(s.drop_last(), depth, k);
    }
}

proof fn lemma_fits_dict_at(s: Seq<(Vec<u8>, Bencode)>, depth: nat, k: int)
    requires
        fits_dict(s, depth),
        0 <= k < s.len(),
    ensures
        fits_depth(s[k].1, depth),
    decreases s.len(),
{
    if k < s.len() - 1 {
        lemma_fits_dict_at(s.drop_last(), depth, k);
    }
}

/// Where the next item of a list lies: after the encodings of the items
/// before it, with the closing `e` after the last.
proof fn lemma_list_item_at(buf: Seq<u8>, pos: int, s: Seq<Bencode>, k: int)
    requires
        at(buf, pos + 1, encode_list(s)),
        0 <= k < s.len(),
    ensures
        at(buf, pos + 1 + encode_list(s.take(k)).len(), encode(s[k])),
{
    lemma_encode_list_split(s, k + 1);
    lemma_encode_list_step(s, k);
    assert(encode_list(s) == encode_list(s.take(k)) + encode(s[k]) + encode_list(s.skip(k + 1)));
    lemma_at_concat(buf, pos + 1, encode_list(s.take(k)) + encode(s[k]), encode_list(s.skip(k + 1)));
    lemma_at_concat(buf, pos + 1, encode_list(s.take(k)), encode(s[k]));
}

proof fn lemma_dict_entry_at(buf: Seq<u8>, pos: int, s: Seq<(Vec<u8>, Bencode)>, k: int)
    requires
        at(buf, pos + 1, encode_dict(s)),
        0 <= k < s.len(),
    ensures
        at(buf, pos + 1 + encode_dict(s.take(k)).len(), encoded_bytes(s[k].0@)),
        at(buf, pos + 1 + encode_dict(s.take(k)).len() + encoded_bytes(s[k].0@).len(), encode(s[k].1)),
{
    lemma_encode_dict_split(s, k + 1);
    lemma_encode_dict_step(s, k);
    let a = encode_dict(s.take(k));
    let kb = encoded_bytes(s[k].0@);
    let vb = encode(s[k].1);
    assert(encode_dict(s) == a + kb + vb + encode_dict(s.skip(k + 1)));
    lemma_at_concat(buf, pos + 1, a + kb + vb, encode_dict(s.skip(k + 1)));
    lemma_at_concat(buf, pos + 1, a + kb, vb);
    lemma_at_concat(buf, pos + 1, a, kb);
}

/// Reads canonical digits from `pos` up to the byte `end_byte`; gives
/// their value and the position of `end_byte`. When the digits of
/// `expect` stand there, followed by `end_byte`, and the value is within
/// `max`, they are read.
fn parse_digits(buf: &[u8], pos: usize, end_byte: u8, max: u64, Ghost(expect): Ghost<Option<nat>>) -> (r: Result<(u64, usize), DecodeError>)
    requires
        pos <= buf@.len(),
        !is_digit(end_byte),
    ensures
        r matches Ok((v, stop)) ==> pos < stop < buf@.len() && buf@[stop as int] == end_byte
            && canonical_digits(buf@.subrange(pos as int, stop as int))
            && v == digits_value(buf@.subrange(pos as int, stop as int)) && v <= max,
        match expect {
            Some(n) => at(buf@, pos as int, decimal(n)) && pos + decimal(n).len() < buf@.len()
                && buf@[pos + decimal(n).len()] == end_byte && n <= max
                ==> r == Ok::<(u64, usize), DecodeError>((n as u64, (pos + decimal(n).len()) as usize)),
            None => true,
        },
{
    let ghost ok = match expect {
        Some(n) => at(buf@, pos as int, decimal(n)) && pos + decimal(n).len() < buf@.len()
            && buf@[pos + decimal(n).len()] == end_byte && n <= max,
        None => false,
    };
    let ghost n: nat = if ok { expect->0 } else { 0 };
    let ghost ds = decimal(n);
    let ghost stop = pos + ds.len();
    proof {
        if ok {
            lemma_decimal_digits(n);
            lemma_decimal_len(n);
        }
    }
    let mut i: usize = pos;
    let mut v: u64 = 0;
    while i < buf.len() && is_digit_byte(buf[i])
        invariant
            pos <= i <= buf@.len(),
            forall|k: int| pos <= k < i ==> is_digit(#[trigger] buf@[k]),
            v == digits_value(buf@.subrange(pos as int, i as int)),
            v <= max,
            ok ==> canonical_digits(ds) && digits_value(ds) == n && n <= max && at(buf@, pos as int, ds)
                && stop < buf@.len() && buf@[stop] == end_byte && i <= stop,
            ok ==> buf@.subrange(pos as int, i as int) == ds.take(i - pos),
            !is_digit(end_byte),
            ok == (match expect {
                Some(m) => at(buf@, pos as int, decimal(m)) && pos + decimal(m).len() < buf@.len()
                    && buf@[pos + decimal(m).len()] == end_byte && m <= max,
                None => false,
            }),
            ok ==> expect == Some(n),
            ds == decimal(n),
            stop == pos + ds.len(),
        decreases buf@.len() - i,
    {
        let d = (buf[i] - 0x30) as u64;
        proof {
            if ok {
                assert(is_digit(buf@[i as int]));
                if i == stop {
                    assert(false);
                }
                assert(i < stop);
                lemma_at_index(buf@, pos as int, ds, i - pos);
                assert(buf@.subrange(pos as int, i + 1) =~= ds.take(i + 1 - pos));
                lemma_digits_prefix(ds, i + 1 - pos);
                assert(ds.take(i + 1 - pos).drop_last() =~= ds.take(i - pos));
                assert(buf@.subrange(pos as int, i + 1).drop_last() =~= buf@.subrange(pos as int, i as int));
                assert(v * 10 + d <= max);
                assert(d <= max);
                assert(v <= (max - d) / 10) by (nonlinear_arith)
                    requires
                        v * 10 + d <= max,
                        d <= max,
                ;
            }
        }
        if d > max || v > (max - d) / 10 {
            return Err(DecodeError::Overflow(pos));
        }
        proof {
            assert(buf@.subrange(pos as int, i + 1).drop_last() =~= buf@.subrange(pos as int, i as int));
            assert(v * 10 + d <= max) by (nonlinear_arith)
                requires
                    v <= (max - d) / 10,
                    d <= max,
            ;
        }
        v = v * 10 + d;
        i = i + 1;
        proof {
            if ok {
                assert(buf@.subrange(pos as int, i as int) =~= ds.take(i - pos));
            }
        }
    }
    proof {
        if ok {
            if i < stop {
                lemma_at_index(buf@, pos as int, ds, i - pos);
            }
            assert(i == stop);
            assert(ds.take(i - pos) =~= ds);
        }
    }
    if i == pos {
        return if i < buf.len() { Err(DecodeError::InvalidByte(i)) } else { Err(DecodeError::UnexpectedEnd) };
    }
    if i >= buf.len() {
        return Err(DecodeError::UnexpectedEnd);
    }
    if buf[i] != end_byte {
        return Err(DecodeError::InvalidByte(i));
    }
    if i - pos > 1 && buf[pos] == 0x30 {
        proof {
            if ok {
                lemma_at_index(buf@, pos as int, ds, 0);
            }
        }
        return Err(DecodeError::NonCanonicalNumber(pos));
    }
    proof {
        let s = buf@.subrange(pos as int, i as int);
        assert forall|k: int| 0 <= k < s.len() implies is_digit(#[trigger] s[k]) by {
            assert(s[k] == buf@[pos + k]);
        }
    }
    Ok((v, i))
}

/// Reads a byte string `<len>:<bytes>` at `pos`; the encoding of `expect`
/// standing there is read whole.
fn parse_bytes(buf: &[u8], pos: usize, Ghost(expect): Ghost<Option<Seq<u8>>>) -> (r: Result<(Vec<u8>, usize), DecodeError>)
    requires
        pos <= buf@.len(),
    ensures
        r matches Ok((v, end)) ==> pos < end <= buf@.len() && buf@.subrange(pos as int, end as int) == encoded_bytes(v@),
        match expect {
            Some(t) => at(buf@, pos as int, encoded_bytes(t)) ==> (r matches Ok((_, end)) && end == pos + encoded_bytes(t).len()),
            None => true,
        },
{
    let ghost ok = match expect {
        Some(t) => at(buf@, pos as int, encoded_bytes(t)),
        None => false,
    };
    let ghost t: Seq<u8> = if ok { expect->0 } else { Seq::empty() };
    proof {
        if ok {
            lemma_at_concat(buf@, pos as int, decimal(t.len()) + seq![0x3au8], t);
            lemma_at_concat(buf@, pos as int, decimal(t.len()), seq![0x3au8]);
            lemma_at_index(buf@, pos + decimal(t.len()).len(), seq![0x3au8], 0);
        }
    }
    let blen = buf.len();
    let (len, colon) = parse_digits(buf, pos, 0x3a, blen as u64, Ghost(if ok { Some(t.len()) } else { None }))?;
    assert(colon < blen);
    let start = colon + 1;
    if len as usize > buf.len() - start {
        return Err(DecodeError::UnexpectedEnd);
    }
    let end = start + len as usize;
    let v = vstd::slice::slice_to_vec(vstd::slice::slice_subrange(buf, start, end));
    proof {
        let ds = buf@.subrange(pos as int, colon as int);
        lemma_decimal_of_digits(ds);
        assert(buf@.subrange(pos as int, end as int) =~= ds + seq![0x3au8] + buf@.subrange(start as int, end as int));
    }
    Ok((v, end))
}

/// Reads an integer `i<n>e` whose `i` is at `pos`; the encoding of
/// `expect` standing there is read whole.
fn parse_int(buf: &[u8], pos: usize, Ghost(expect): Ghost<Option<i64>>) -> (r: Result<(i64, usize), DecodeError>)
    requires
        pos < buf@.len(),
        buf@[pos as int] == 0x69,
    ensures
        r matches Ok((n, end)) ==> pos < end <= buf@.len()
            && buf@.subrange(pos as int, end as int) == seq![0x69u8] + int_text(n as int) + seq![0x65u8],
        match expect {
            Some(n) => at(buf@, pos as int, encode(Bencode::Int(n)))
                ==> (r matches Ok((_, end)) && end == pos + encode(Bencode::Int(n)).len()),
            None => true,
        },
{
    let ghost ok = match expect {
        Some(n) => at(buf@, pos as int, encode(Bencode::Int(n))),
        None => false,
    };
    let ghost n: i64 = if ok { expect->0 } else { 0 };
    let ghost txt = int_text(n as int);
    proof {
        if ok {
            lemma_at_concat(buf@, pos as int, seq![0x69u8] + txt, seq![0x65u8]);
            lemma_at_concat(buf@, pos as int, seq![0x69u8], txt);
            lemma_at_index(buf@, pos + 1 + txt.len(), seq![0x65u8], 0);
            if n < 0 {
                lemma_at_concat(buf@, pos + 1, seq![MINUS], decimal((-n) as nat));
                lemma_at_index(buf@, pos + 1, seq![MINUS], 0);
                lemma_decimal_digits((-n) as nat);
            } else {
                lemma_decimal_digits(n as nat);
                lemma_decimal_len(n as nat);
                lemma_at_index(buf@, pos + 1, txt, 0);
            }
        }
    }
    let blen = buf.len();
    assert(pos < blen);
    let start = pos + 1;
    if start < buf.len() && buf[start] == MINUS {
        let (v, stop) = parse_digits(buf, start + 1, 0x65, 0x8000_0000_0000_0000,
            Ghost(if ok { Some((-n) as nat) } else { None }))?;
        if v == 0 {
            return Err(DecodeError::NonCanonicalNumber(start));
        }
        let n: i64 = if v == 0x8000_0000_0000_0000 { i64::MIN } else { -(v as i64) };
        proof {
            let ds = buf@.subrange(start + 1, stop as int);
            lemma_decimal_of_digits(ds);
            assert(-(n as int) == v);
            assert(buf@.subrange(pos as int, stop + 1) =~= seq![0x69u8] + (seq![MINUS] + ds) + seq![0x65u8]);
        }
        Ok((n, stop + 1))
    } else {
        let (v, stop) = parse_digits(buf, start, 0x65, 0x7fff_ffff_ffff_ffff,
            Ghost(if ok { Some(n as nat) } else { None }))?;
        let n = v as i64;
        proof {
            let ds = buf@.subrange(start as int, stop as int);
            lemma_decimal_of_digits(ds);
            assert(buf@.subrange(pos as int, stop + 1) =~= seq![0x69u8] + ds + seq![0x65u8]);
        }
        Ok((n, stop + 1))
    }
}

/// Reads one value starting at `pos`, with `depth` lists and dictionaries
/// around it; the encoding of `target` standing there is read whole when
/// it fits the depth.
fn parse_value(buf: &[u8], pos: usize, depth: usize, Ghost(target): Ghost<Option<Bencode>>) -> (r: Result<(Bencode, usize), DecodeError>)
    requires
        pos <= buf@.len(),
        depth <= MAX_DEPTH,
    ensures
        r matches Ok((v, end)) ==> pos < end <= buf@.len() && buf@.subrange(pos as int, end as int) == encode(v)
            && fits_depth(v, depth as nat),
        pos == buf@.len() ==> r == Err::<(Bencode, usize), DecodeError>(DecodeError::UnexpectedEnd),
        match target {
            Some(t) => at(buf@, pos as int, encode(t)) && fits_depth(t, depth as nat)
                ==> (r matches Ok((_, end)) && end == pos + encode(t).len()),
            None => true,
        },
    decreases buf@.len() - pos,
{
    let ghost ok = match target {
        Some(t) => at(buf@, pos as int, encode(t)) && fits_depth(t, depth as nat),
        None => false,
    };
    let ghost t: Bencode = if ok { target->0 } else { Bencode::Int(0) };
    proof {
        if ok {
            lemma_encode_start(t);
            lemma_at_index(buf@, pos as int, encode(t), 0);
        }
    }
    if pos >= buf.len() {
        return Err(DecodeError::UnexpectedEnd);
    }
    let c = buf[pos];
    if c == 0x69 {
        let (n, end) = parse_int(buf, pos, Ghost(if ok { Some(t->Int_0) } else { None }))?;
        Ok((Bencode::Int(n), end))
    } else if is_digit_byte(c) {
        let (v, end) = parse_bytes(buf, pos, Ghost(if ok { Some(t->Bytes_0@) } else { None }))?;
        Ok((Bencode::Bytes(v), end))
    } else if c == 0x6c {
        let ghost s: Seq<Bencode> = if ok { t->List_0@ } else { Seq::empty() };
        proof {
            if ok {
                lemma_at_concat(buf@, pos as int, seq![0x6cu8] + encode_list(s), seq![0x65u8]);
                lemma_at_concat(buf@, pos as int, seq![0x6cu8], encode_list(s));
                lemma_at_index(buf@, pos + 1 + encode_list(s).len(), seq![0x65u8], 0);
            }
        }
        if depth >= MAX_DEPTH {
            return Err(DecodeError::ExceededDepth);
        }
        let mut items: Vec<Bencode> = Vec::new();
        let mut p = pos + 1;
        let ghost mut k: int = 0;
        while p < buf.len() && buf[p] != 0x65
            invariant
                pos < p <= buf@.len(),
                depth < MAX_DEPTH,
                buf@.subrange(pos + 1, p as int) == encode_list(items@),
                fits_list(items@, (depth + 1) as nat),
                ok ==> 0 <= k <= s.len() && p == pos + 1 + encode_list(s.take(k)).len()
                    && at(buf@, pos + 1, encode_list(s)) && pos + 1 + encode_list(s).len() < buf@.len()
                    && buf@[pos + 1 + encode_list(s).len()] == 0x65 && fits_list(s, (depth + 1) as nat),
                ok == (match target {
                    Some(tt) => at(buf@, pos as int, encode(tt)) && fits_depth(tt, depth as nat),
                    None => false,
                }),
            decreases buf@.len() - p,
        {
            proof {
                if ok {
                    if k == s.len() {
                        assert(s.take(k) =~= s);
                    }
                    lemma_list_item_at(buf@, pos as int, s, k);
                    lemma_fits_list_at(s, (depth + 1) as nat, k);
                }
            }
            let (item, np) = parse_value(buf, p, depth + 1, Ghost(if ok { Some(s[k]) } else { None }))?;
            proof {
                assert(buf@.subrange(pos + 1, np as int) =~= buf@.subrange(pos + 1, p as int) + buf@.subrange(p as int, np as int));
                if ok {
                    lemma_encode_list_step(s, k);
                    k = k + 1;
                }
            }
            let ghost before = items@;
            items.push(item);
            proof {
                assert(items@.drop_last() =~= before);
            }
            p = np;
        }
        proof {
            if ok {
                if k < s.len() {
                    lemma_list_item_at(buf@, pos as int, s, k);
                    lemma_encode_start(s[k]);
                    lemma_at_index(buf@, p as int, encode(s[k]), 0);
                }
                assert(s.take(k) =~= s);
            }
        }
        if p >= buf.len() {
            return Err(DecodeError::UnexpectedEnd);
        }
        let ghost s2 = items@;
        let v = Bencode::List(items);
        proof {
            assert(buf@.subrange(pos as int, p + 1) =~= seq![0x6cu8] + buf@.subrange(pos + 1, p as int) + seq![0x65u8]);
        }
        Ok((v, p + 1))
    } else if c == 0x64 {
        let ghost s: Seq<(Vec<u8>, Bencode)> = if ok { t->Dict_0@ } else { Seq::empty() };
        proof {
            if ok {
                lemma_at_concat(buf@, pos as int, seq![0x64u8] + encode_dict(s), seq![0x65u8]);
                lemma_at_concat(buf@, pos as int, seq![0x64u8], encode_dict(s));
                lemma_at_index(buf@, pos + 1 + encode_dict(s).len(), seq![0x65u8], 0);
            }
        }
        if depth >= MAX_DEPTH {
            return Err(DecodeError::ExceededDepth);
        }
        let mut entries: Vec<(Vec<u8>, Bencode)> = Vec::new();
        let mut p = pos + 1;
        let ghost mut k: int = 0;
        while p < buf.len() && buf[p] != 0x65
            invariant
                pos < p <= buf@.len(),
                depth < MAX_DEPTH,
                buf@.subrange(pos + 1, p as int) == encode_dict(entries@),
                fits_dict(entries@, (depth + 1) as nat),
                ok ==> 0 <= k <= s.len() && p == pos + 1 + encode_dict(s.take(k)).len()
                    && at(buf@, pos + 1, encode_dict(s)) && pos + 1 + encode_dict(s).len() < buf@.len()
                    && buf@[pos + 1 + encode_dict(s).len()] == 0x65 && fits_dict(s, (depth + 1) as nat),
                ok == (match target {
                    Some(tt) => at(buf@, pos as int, encode(tt)) && fits_depth(tt, depth as nat),
                    None => false,
                }),
            decreases buf@.len() - p,
        {
            proof {
                if ok {
                    if k == s.len() {
                        assert(s.take(k) =~= s);
                    }
                    lemma_dict_entry_at(buf@, pos as int, s, k);
                    lemma_fits_dict_at(s, (depth + 1) as nat, k);
                }
            }
            let (key, kp) = parse_bytes(buf, p, Ghost(if ok { Some(s[k].0@) } else { None }))?;
            let (value, np) = parse_value(buf, kp, depth + 1, Ghost(if ok { Some(s[k].1) } else { None }))?;
            proof {
                assert(buf@.subrange(pos + 1, np as int) =~= buf@.subrange(pos + 1, p as int) + buf@.subrange(p as int, kp as int)
                    + buf@.subrange(kp as int, np as int));
                if ok {
                    lemma_encode_dict_step(s, k);
                    k = k + 1;
                }
            }
            let ghost before = entries@;
            entries.push((key, value));
            proof {
                assert(entries@.drop_last() =~= before);
            }
            p = np;
        }
        proof {
            if ok {
                if k < s.len() {
                    lemma_dict_entry_at(buf@, pos as int, s, k);
                    lemma_decimal_digits(s[k].0@.len());
                    lemma_at_index(buf@, p as int, encoded_bytes(s[k].0@), 0);
                }
                assert(s.take(k) =~= s);
            }
        }
        if p >= buf.len() {
            return Err(DecodeError::UnexpectedEnd);
        }
        let v = Bencode::Dict(entries);
        proof {
            assert(buf@.subrange(pos as int, p + 1) =~= seq![0x64u8] + buf@.subrange(pos + 1, p as int) + seq![0x65u8]);
        }
        Ok((v, p + 1))
    } else {
        Err(DecodeError::InvalidByte(pos))
    }
}

/// Decodes bytes that hold exactly one bencoded value: it succeeds exactly
/// when the bytes are the encoding of a value nested no deeper than
/// `MAX_DEPTH`, and whatever it gives back encodes to those very bytes.
pub fn decode(bytes: &[u8]) -> (r: Result<Bencode, DecodeError>)
    ensures
        r is Ok <==> decodable(bytes@),
        r matches Ok(v) ==> encode(v) == bytes@ && fits_depth(v, 0),
        bytes@.len() == 0 ==> r == Err::<Bencode, DecodeError>(DecodeError::UnexpectedEnd),
{
    let ghost target: Option<Bencode> = if decodable(bytes@) {
        Some(choose|v: Bencode| #[trigger] encode(v) == bytes@ && fits_depth(v, 0))
    } else {
        None
    };
    proof {
        if decodable(bytes@) {
            let t = target->0;
            assert(bytes@.subrange(0, encode(t).len() as int) =~= bytes@);
        }
    }
    let (v, end) = parse_value(bytes, 0, 0, Ghost(target))?;
    if end != bytes.len() {
        return Err(DecodeError::TrailingBytes(end));
    }
    assert(bytes@.subrange(0, end as int) =~= bytes@);
    Ok(v)
}

/// Decimal digits of a number.
pub fn u64_to_decimal(n: u64) -> (r: Vec<u8>)
    ensures
        r@ == decimal(n as nat),
    decreases n,
{
    if n < 10 {
        let r = vec![(0x30 + n) as u8];
        assert(r@ =~= decimal(n as nat));
        r
    } else {
        let mut r = u64_to_decimal(n / 10);
        r.push((0x30 + n % 10) as u8);
        r
    }
}

fn append(v: &mut Vec<u8>, w: &[u8])
    ensures
        final(v)@ == old(v)@ + w@,
{
    let ghost start = v@;
    let mut i: usize = 0;
    while i < w.len()
        invariant
            i <= w@.len(),
            v@ == start + w@.take(i as int),
        decreases w@.len() - i,
    {
        v.push(w[i]);
        i = i + 1;
        assert(v@ =~= start + w@.take(i as int));
    }
    assert(w@.take(w@.len() as int) =~= w@);
}

/// Appends the decimal text of an integer.
fn push_int_text(out: &mut Vec<u8>, n: i64)
    ensures
        final(out)@ == old(out)@ + int_text(n as int),
{
    if n < 0 {
        out.push(MINUS);
        let m: u64 = if n == i64::MIN { 0x8000_0000_0000_0000 } else { (-n) as u64 };
        assert(m == -(n as int));
        let digits = u64_to_decimal(m);
        append(out, digits.as_slice());
        assert(final(out)@ =~= old(out)@ + int_text(n as int));
    } else {
        let digits = u64_to_decimal(n as u64);
        append(out, digits.as_slice());
    }
}

/// Appends the bencoding of a value.
pub fn encode_into(out: &mut Vec<u8>, b: &Bencode)
    ensures
        final(out)@ == old(out)@ + encode(*b),
    decreases b,
{
    match b {
        Bencode::Int(n) => {
            out.push(0x69);
            push_int_text(out, *n);
            out.push(0x65);
            assert(final(out)@ =~= old(out)@ + encode(*b));
        },
        Bencode::Bytes(v) => {
            crate::dht::bencode::push_encoded_bytes(out, v.as_slice());
        },
        Bencode::List(l) => {
            out.push(0x6c);
            let ghost start = out@;
            let mut i: usize = 0;
            while i < l.len()
                invariant
                    i <= l@.len(),
                    *b == Bencode::List(*l),
                    out@ == start + encode_list(l@.take(i as int)),
                decreases l@.len() - i,
            {
                proof {
                    assert(decreases_to!(*b => (*b)->List_0));
                    assert((*b)->List_0 == *l);
                    assert(decreases_to!(*l => l@));
                    assert(decreases_to!(l@ => l@[i as int]));
                }
                encode_into(out, &l[i]);
                proof {
                    assert(l@.take(i + 1).drop_last() =~= l@.take(i as int));
                    assert(out@ =~= start + encode_list(l@.take(i + 1)));
                }
                i = i + 1;
            }
            assert(l@.take(l@.len() as int) =~= l@);
            out.push(0x65);
            assert(final(out)@ =~= old(out)@ + encode(*b));
        },
        Bencode::Dict(d) => {
            out.push(0x64);
            let ghost start = out@;
            let mut i: usize = 0;
            while i < d.len()
                invariant
                    i <= d@.len(),
                    *b == Bencode::Dict(*d),
                    out@ == start + encode_dict(d@.take(i as int)),
                decreases d@.len() - i,
            {
                crate::dht::bencode::push_encoded_bytes(out, d[i].0.as_slice());
                proof {
                    assert(decreases_to!(*b => (*b)->Dict_0));
                    assert((*b)->Dict_0 == *d);
                    assert(decreases_to!(*d => d@));
                    assert(decreases_to!(d@ => d@[i as int]));
                    assert(decreases_to!(d@[i as int] => d@[i as int].1));
                }
                encode_into(out, &d[i].1);
                proof {
                    assert(d@.take(i + 1).drop_last() =~= d@.take(i as int));
                    assert(out@ =~= start + encode_dict(d@.take(i + 1)));
                }
                i = i + 1;
            }
            assert(d@.take(d@.len() as int) =~= d@);
            out.push(0x65);
            assert(final(out)@ =~= old(out)@ + encode(*b));
        },
    }
}

/// The bencoding of a value.
pub fn encode_value(b: &Bencode) -> (r: Vec<u8>)
    ensures
        r@ == encode(*b),
{
    let mut out: Vec<u8> = Vec::new();
    encode_into(&mut out, b);
    assert(out@ =~= encode(*b));
    out
}

fn is_digit_byte(b: u8) -> (r: bool)
    ensures
        r == is_digit(b),
{
    0x30 <= b && b <= 0x39
}

} // verus!
