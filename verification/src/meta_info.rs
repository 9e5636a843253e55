use vstd::prelude::*;

use crate::sha::{hex_lower, percent_encode_non_alphanumeric, percent_encoded, sha1_bytes, sha1_digest, to_hex_lower};
use crate::wire::slice_range;
use crate::decoder::{DecoderError, get_bytes, get_str, get_str_list, get_str_list_list, get_u64, str_field, u64_field,
    bytes_field, strings_match, all_strings, str_ok, u64_ok, bytes_ok, str_list_ok, str_list_list_ok};
use crate::dht::bencode::{Bencode, dict_get, dict_lookup};
use crate::dht::decode::{encode, encode_value, decodable, fits_depth};

verus! {

/// The info dictionary of a torrent.
#[derive(Debug, PartialEq, Clone)]
pub struct Info {
    pub name: String,
    pub length: Option<u64>,
    pub files: Option<Vec<File>>,
    /// Length of a piece.
    pub piece_length: u64,
    /// The concatenated SHA-1 hashes of the pieces.
    pub pieces: Vec<u8>,
    /// `pieces` split into hashes.
    pub piece_list: Option<Vec<Vec<u8>>>,
    /// Number of pieces.
    pub num_pieces: Option<u32>,
    pub md5sum: Option<String>,
    pub private: Option<u8>,
    pub path: Option<Vec<String>>,
    pub root_hash: Option<String>,
    pub size: Option<u64>,
}

/// A file of a multi-file torrent.
#[derive(Debug, PartialEq, Clone)]
pub struct File {
    pub path: Vec<String>,
    pub length: u64,
    pub md5sum: Option<String>,
}

/// A parsed torrent file.
#[derive(Debug, PartialEq, Clone)]
pub struct MetaInfo {
    pub info: Info,
    pub info_hash: Option<Vec<u8>>,
    pub info_hash_hex: Option<String>,
    pub info_hash_ascii: Option<String>,
    pub announce: Option<String>,
    pub announce_list: Option<Vec<Vec<String>>>,
    pub nodes: Option<Vec<Node>>,
    pub encoding: Option<String>,
    pub httpseeds: Option<Vec<String>>,
    pub creation_date: Option<u64>,
    pub created_by: Option<String>,
    pub comment: Option<String>,
}

/// A DHT node of a torrent file.
#[derive(Debug, PartialEq, Clone)]
pub struct Node(pub String, pub u64);

/// Errors of torrent file parsing.
#[derive(Debug)]
pub enum Error {
    DecodeError(),
    IoError(),
}

/// Number of `n`-byte chunks of a sequence of length `len` (the last one may
/// be shorter).
pub open spec fn num_chunks(len: int, n: int) -> int {
    (len + n - 1) / n
}

/// The `i`-th chunk of `n` bytes.
pub open spec fn chunk(s: Seq<u8>, n: int, i: int) -> Seq<u8> {
    s.subrange(n * i, if n * i + n <= s.len() { n * i + n } else { s.len() as int })
}

/// Splits the concatenated piece hashes into 20-byte hashes (the last may be
/// shorter when the length is not a multiple of 20).
pub fn split_piece_hashes(pieces: &[u8]) -> (r: Vec<Vec<u8>>)
    ensures
        r@.len() == num_chunks(pieces@.len() as int, 20),
        forall|i: int| 0 <= i < r@.len() ==> (#[trigger] r@[i])@ == chunk(pieces@, 20, i),
{
    let mut r: Vec<Vec<u8>> = Vec::new();
    let mut start: usize = 0;
    while start < pieces.len()
        invariant
            start <= pieces@.len(),
            start == (if 20 * r@.len() <= pieces@.len() { 20 * r@.len() as int } else { pieces@.len() as int }),
            start < pieces@.len() ==> r@.len() < num_chunks(pieces@.len() as int, 20),
            start >= pieces@.len() ==> r@.len() == num_chunks(pieces@.len() as int, 20),
            forall|i: int| 0 <= i < r@.len() ==> (#[trigger] r@[i])@ == chunk(pieces@, 20, i),
        decreases pieces@.len() - start,
    {
        let end = if pieces.len() - start >= 20 { start + 20 } else { pieces.len() };
        let c = vstd::slice::slice_to_vec(slice_range(pieces, start, end));
        let ghost k = r@.len() as int;
        r.push(c);
        proof {
            assert(r@[k]@ == chunk(pieces@, 20, k));
        }
        start = end;
    }
    r
}

/// Sum of the file lengths.
pub open spec fn files_size(files: Seq<File>) -> int
    decreases files.len(),
{
    if files.len() == 0 {
        0
    } else {
        files_size(files.drop_last()) + files.last().length
    }
}

proof fn lemma_files_size_prefix(s: Seq<File>, i: int)
    requires
        0 <= i <= s.len(),
    ensures
        0 <= files_size(s.take(i)) <= files_size(s),
    decreases s.len() - i,
{
    if i < s.len() {
        lemma_files_size_prefix(s, i + 1);
        assert(s.take(i + 1).drop_last() =~= s.take(i));
    } else {
        assert(s.take(i) =~= s);
    }
    lemma_files_size_nonneg(s.take(i));
}

proof fn lemma_files_size_nonneg(s: Seq<File>)
    ensures
        files_size(s) >= 0,
    decreases s.len(),
{
    if s.len() > 0 {
        lemma_files_size_nonneg(s.drop_last());
    }
}

/// The size of the torrent's content: the length of a single-file torrent,
/// else the sum of the file lengths, else unknown.
pub open spec fn content_size(length: Option<u64>, files: Option<Vec<File>>) -> Option<int> {
    match length {
        Some(l) => Some(l as int),
        None => match files {
            Some(f) => Some(files_size(f@)),
            None => None,
        },
    }
}

fn sum_file_lengths(files: &Vec<File>) -> (r: u64)
    requires
        files_size(files@) <= u64::MAX,
    ensures
        r == files_size(files@),
{
    let mut file_size: u64 = 0;
    let mut i: usize = 0;
    while i < files.len()
        invariant
            i <= files@.len(),
            file_size == files_size(files@.take(i as int)),
            files_size(files@) <= u64::MAX,
        decreases files@.len() - i,
    {
        proof {
            lemma_files_size_prefix(files@, i + 1);
            assert(files@.take(i + 1).drop_last() =~= files@.take(i as int));
        }
        file_size = file_size + files[i].length;
        i = i + 1;
    }
    assert(files@.take(i as int) =~= files@);
    file_size
}

impl Info {
    /// Builds the info dictionary from its fields, deriving the piece hash
    /// list, the number of pieces and the content size.
    pub fn from_parts(
        name: String,
        length: Option<u64>,
        files: Option<Vec<File>>,
        piece_length: u64,
        pieces: Vec<u8>,
        md5sum: Option<String>,
        private: Option<u8>,
        path: Option<Vec<String>>,
        root_hash: Option<String>,
    ) -> (r: Info)
        requires
            length is None && files is Some ==> files_size(files.unwrap()@) <= u64::MAX,
        ensures
            r.name == name,
            r.length == length,
            r.files == files,
            r.piece_length == piece_length,
            r.pieces@ == pieces@,
            r.piece_list is Some,
            r.piece_list.unwrap()@.len() == num_chunks(pieces@.len() as int, 20),
            forall|i: int| 0 <= i < r.piece_list.unwrap()@.len() ==> (#[trigger] r.piece_list.unwrap()@[i])@ == chunk(pieces@, 20, i),
            r.num_pieces == Some((num_chunks(pieces@.len() as int, 20) as u32)),
            r.size matches Some(v) ==> content_size(length, files) == Some(v as int),
            r.size is None <==> content_size(length, files) is None,
            r.md5sum == md5sum,
            r.private == private,
            r.path == path,
            r.root_hash == root_hash,
    {
        let piece_list = split_piece_hashes(pieces.as_slice());
        let num_pieces = piece_list.len() as u32;
        let size = match length {
            Some(l) => Some(l),
            None => match &files {
                Some(f) => Some(sum_file_lengths(f)),
                None => None,
            },
        };
        Info {
            name,
            length,
            files,
            size,
            piece_length,
            pieces,
            piece_list: Some(piece_list),
            num_pieces: Some(num_pieces),
            md5sum,
            private,
            path,
            root_hash,
        }
    }
}

impl MetaInfo {
    /// Builds the torrent from its fields and the bencoded bytes of its info
    /// dictionary, deriving the info hash (SHA-1 of those bytes), its
    /// lower-case hexadecimal form and its percent-encoded form.
    pub fn from_parts(
        info: Info,
        info_bytes: &[u8],
        announce: Option<String>,
        announce_list: Option<Vec<Vec<String>>>,
        nodes: Option<Vec<Node>>,
        encoding: Option<String>,
        httpseeds: Option<Vec<String>>,
        creation_date: Option<u64>,
        created_by: Option<String>,
        comment: Option<String>,
    ) -> (r: MetaInfo)
        ensures
            r.info == info,
            r.info_hash matches Some(h) && h@ == sha1_digest(info_bytes@),
            r.info_hash_hex matches Some(h) && h@ == hex_lower(sha1_digest(info_bytes@)),
            r.info_hash_ascii matches Some(h) && h@ == percent_encoded(sha1_digest(info_bytes@)),
            r.announce == announce,
            r.announce_list == announce_list,
            r.nodes == nodes,
            r.encoding == encoding,
            r.httpseeds == httpseeds,
            r.creation_date == creation_date,
            r.created_by == created_by,
            r.comment == comment,
    {
        let digest = sha1_bytes(info_bytes);
        let info_hash = vstd::slice::slice_to_vec(digest.as_slice());
        let info_hash_hex = to_hex_lower(digest.as_slice());
        let hex = percent_encode_non_alphanumeric(digest.as_slice());
        MetaInfo {
            announce,
            announce_list,
            nodes,
            encoding,
            httpseeds,
            creation_date,
            created_by,
            comment,
            info,
            info_hash: Some(info_hash),
            info_hash_hex: Some(info_hash_hex),
            info_hash_ascii: Some(hex),
        }
    }
}

// ---------------------------------------------------------------------------
// Reading a torrent out of its bencoded dictionary.

/// `path`.
pub open spec fn key_path() -> Seq<u8> { seq![0x70u8, 0x61, 0x74, 0x68] }
/// `length`.
pub open spec fn key_length() -> Seq<u8> { seq![0x6cu8, 0x65, 0x6e, 0x67, 0x74, 0x68] }
/// `md5sum`.
pub open spec fn key_md5sum() -> Seq<u8> { seq![0x6du8, 0x64, 0x35, 0x73, 0x75, 0x6d] }
/// `name`.
pub open spec fn key_name() -> Seq<u8> { seq![0x6eu8, 0x61, 0x6d, 0x65] }
/// `piece length`.
pub open spec fn key_piece_length() -> Seq<u8> { seq![0x70u8, 0x69, 0x65, 0x63, 0x65, 0x20, 0x6c, 0x65, 0x6e, 0x67, 0x74, 0x68] }
/// `pieces`.
pub open spec fn key_pieces() -> Seq<u8> { seq![0x70u8, 0x69, 0x65, 0x63, 0x65, 0x73] }
/// `files`.
pub open spec fn key_files() -> Seq<u8> { seq![0x66u8, 0x69, 0x6c, 0x65, 0x73] }
/// `private`.
pub open spec fn key_private() -> Seq<u8> { seq![0x70u8, 0x72, 0x69, 0x76, 0x61, 0x74, 0x65] }
/// `root_hash`.
pub open spec fn key_root_hash() -> Seq<u8> { seq![0x72u8, 0x6f, 0x6f, 0x74, 0x5f, 0x68, 0x61, 0x73, 0x68] }
/// `info`.
pub open spec fn key_info() -> Seq<u8> { seq![0x69u8, 0x6e, 0x66, 0x6f] }
/// `announce`.
pub open spec fn key_announce() -> Seq<u8> { seq![0x61u8, 0x6e, 0x6e, 0x6f, 0x75, 0x6e, 0x63, 0x65] }
/// `announce-list`.
pub open spec fn key_announce_list() -> Seq<u8> { seq![0x61u8, 0x6e, 0x6e, 0x6f, 0x75, 0x6e, 0x63, 0x65, 0x2d, 0x6c, 0x69, 0x73, 0x74] }

/// The string field of `d` read into `o`.
pub open spec fn str_read(o: Option<String>, d: Seq<(Vec<u8>, Bencode)>, key: Seq<u8>) -> bool {
    match (o, str_field(d, key)) {
        (Some(s), Ok(Some(t))) => s@ == t,
        (None, Ok(None)) => true,
        _ => false,
    }
}

/// The string-list field of `d` read into `o`.
pub open spec fn str_list_read(o: Option<Vec<String>>, d: Seq<(Vec<u8>, Bencode)>, key: Seq<u8>) -> bool {
    match (o, dict_get(d, key)) {
        (Some(v), Some(Bencode::List(l))) => strings_match(l@, v@),
        (None, None) => true,
        _ => false,
    }
}

/// A file entry that reads as a file: a dictionary with a path that is a
/// list of strings, a length, and an md5sum that is missing or a string.
pub open spec fn file_ok(b: Bencode) -> bool {
    &&& b matches Bencode::Dict(d)
    &&& dict_get(d@, key_path()) matches Some(Bencode::List(l)) && all_strings(l@)
    &&& u64_ok(d@, key_length(), true)
    &&& str_ok(d@, key_md5sum(), false)
}

/// The file was read out of the entry.
pub open spec fn file_read(f: File, b: Bencode) -> bool {
    b matches Bencode::Dict(d)
        && str_list_read(Some(f.path), d@, key_path())
        && u64_field(d@, key_length()) == Ok::<Option<u64>, DecoderError>(Some(f.length))
        && str_read(f.md5sum, d@, key_md5sum())
}

impl File {
    /// Reads a file entry: its path (a list of strings) and length are
    /// required, its md5sum optional.
    pub fn from_bencode(b: &Bencode) -> (r: Result<File, DecoderError>)
        ensures
            !(b is Dict) ==> r == Err::<File, DecoderError>(DecoderError::NotADict),
            r is Ok <==> file_ok(*b),
            r matches Ok(f) ==> file_read(f, *b),
    {
        match b {
            Bencode::Dict(d) => {
                let kp: [u8; 4] = [0x70, 0x61, 0x74, 0x68];
                let kl: [u8; 6] = [0x6c, 0x65, 0x6e, 0x67, 0x74, 0x68];
                let km: [u8; 6] = [0x6d, 0x64, 0x35, 0x73, 0x75, 0x6d];
                assert(kp@ =~= key_path());
                assert(kl@ =~= key_length());
                assert(km@ =~= key_md5sum());
                let path = match get_str_list(d, kp.as_slice())? {
                    Some(p) => p,
                    None => {
                        return Err(DecoderError::DoesntContain);
                    },
                };
                let length = match get_u64(d, kl.as_slice())? {
                    Some(l) => l,
                    None => {
                        return Err(DecoderError::DoesntContain);
                    },
                };
                let md5sum = get_str(d, km.as_slice())?;
                Ok(File { path, length, md5sum })
            },
            _ => Err(DecoderError::NotADict),
        }
    }
}

impl Node {
    /// A node entry: any dictionary reads as the placeholder node.
    pub fn from_bencode(b: &Bencode) -> (r: Result<Node, DecoderError>)
        ensures
            !(b is Dict) ==> r == Err::<Node, DecoderError>(DecoderError::NotADict),
            b is Dict ==> (r matches Ok(n) && n.0@ == "node"@ && n.1 == 100),
    {
        match b {
            Bencode::Dict(_) => {
                let name = String::from_str("node");
                proof {
                    reveal_strlit("node");
                }
                Ok(Node(name, 100))
            },
            _ => Err(DecoderError::NotADict),
        }
    }
}

/// Every entry reads as a file.
pub open spec fn files_ok(l: Seq<Bencode>) -> bool {
    forall|i: int| 0 <= i < l.len() ==> file_ok(#[trigger] l[i])
}

/// The files were read out of the entries, one per entry.
pub open spec fn files_read(v: Seq<File>, l: Seq<Bencode>) -> bool {
    v.len() == l.len() && forall|i: int| 0 <= i < l.len() ==> file_read(#[trigger] v[i], l[i])
}

/// The length an entry gives its file.
pub open spec fn entry_length(b: Bencode) -> int {
    match b {
        Bencode::Dict(d) => match u64_field(d@, key_length()) {
            Ok(Some(n)) => n as int,
            _ => 0,
        },
        _ => 0,
    }
}

/// Sum of the lengths the entries give.
pub open spec fn entries_size(l: Seq<Bencode>) -> int
    decreases l.len(),
{
    if l.len() == 0 {
        0
    } else {
        entries_size(l.drop_last()) + entry_length(l.last())
    }
}

proof fn lemma_files_size_entries(v: Seq<File>, l: Seq<Bencode>)
    requires
        files_read(v, l),
    ensures
        files_size(v) == entries_size(l),
    decreases l.len(),
{
    if l.len() > 0 {
        let vp = v.drop_last();
        let lp = l.drop_last();
        assert forall|i: int| 0 <= i < lp.len() implies file_read(#[trigger] vp[i], lp[i]) by {
            assert(file_read(v[i], l[i]));
        }
        lemma_files_size_entries(vp, lp);
        assert(file_read(v[v.len() - 1], l[l.len() - 1]));
    }
}

/// Reads the list of files of a multi-file torrent.
fn files_from_bencode(l: &Vec<Bencode>) -> (r: Result<Vec<File>, DecoderError>)
    ensures
        r is Ok <==> files_ok(l@),
        r matches Ok(v) ==> files_read(v@, l@),
{
    let mut out: Vec<File> = Vec::new();
    let mut i: usize = 0;
    while i < l.len()
        invariant
            i <= l@.len(),
            out@.len() == i,
            forall|j: int| 0 <= j < i ==> file_ok(#[trigger] l@[j]) && file_read(out@[j], l@[j]),
        decreases l@.len() - i,
    {
        let f = File::from_bencode(&l[i])?;
        out.push(f);
        i = i + 1;
    }
    Ok(out)
}

/// Adds up the file lengths, if the sum fits in 64 bits.
fn checked_files_size(files: &Vec<File>) -> (r: Option<u64>)
    ensures
        r matches Some(v) ==> v == files_size(files@),
        r is None ==> files_size(files@) > u64::MAX,
{
    let mut total: u64 = 0;
    let mut i: usize = 0;
    while i < files.len()
        invariant
            i <= files@.len(),
            total == files_size(files@.take(i as int)),
        decreases files@.len() - i,
    {
        proof {
            assert(files@.take(i + 1).drop_last() =~= files@.take(i as int));
        }
        match total.checked_add(files[i].length) {
            Some(t) => {
                total = t;
            },
            None => {
                proof {
                    lemma_files_size_prefix(files@, i + 1);
                }
                return None;
            },
        }
        i = i + 1;
    }
    assert(files@.take(i as int) =~= files@);
    Some(total)
}

/// An info dictionary that reads as one: pieces, a name and a piece
/// length are there; every other field is missing or of its type (a
/// private flag that fits in a byte); the files are entries that read as
/// files; and without a length the file lengths add up within 64 bits.
pub open spec fn info_ok(d: Seq<(Vec<u8>, Bencode)>) -> bool {
    &&& bytes_ok(d, key_pieces(), true)
    &&& u64_ok(d, key_length(), false)
    &&& match dict_get(d, key_files()) {
        None => true,
        Some(Bencode::List(l)) => files_ok(l@),
        Some(_) => false,
    }
    &&& str_ok(d, key_name(), true)
    &&& u64_ok(d, key_piece_length(), true)
    &&& str_ok(d, key_md5sum(), false)
    &&& match u64_field(d, key_private()) {
        Ok(Some(p)) => p <= 255,
        Ok(None) => true,
        Err(_) => false,
    }
    &&& str_list_ok(d, key_path())
    &&& str_ok(d, key_root_hash(), false)
    &&& u64_field(d, key_length()) == Ok::<Option<u64>, DecoderError>(None) ==> match dict_get(d, key_files()) {
        Some(Bencode::List(l)) => entries_size(l@) <= u64::MAX,
        _ => true,
    }
}

/// The info was read out of the dictionary.
pub open spec fn info_read(info: Info, d: Seq<(Vec<u8>, Bencode)>) -> bool {
    &&& str_read(Some(info.name), d, key_name())
    &&& u64_field(d, key_piece_length()) == Ok::<Option<u64>, DecoderError>(Some(info.piece_length))
    &&& bytes_field(d, key_pieces()) == Ok::<Option<Seq<u8>>, DecoderError>(Some(info.pieces@))
    &&& u64_field(d, key_length()) == Ok::<Option<u64>, DecoderError>(info.length)
    &&& str_read(info.md5sum, d, key_md5sum())
    &&& str_list_read(info.path, d, key_path())
    &&& str_read(info.root_hash, d, key_root_hash())
    &&& match info.private {
        Some(p) => u64_field(d, key_private()) == Ok::<Option<u64>, DecoderError>(Some(p as u64)),
        None => u64_field(d, key_private()) == Ok::<Option<u64>, DecoderError>(None),
    }
    &&& match info.files {
        Some(f) => dict_get(d, key_files()) matches Some(Bencode::List(l)) && files_read(f@, l@),
        None => dict_get(d, key_files()) is None,
    }
    &&& info.piece_list is Some
    &&& info.piece_list.unwrap()@.len() == num_chunks(info.pieces@.len() as int, 20)
    &&& forall|i: int| 0 <= i < info.piece_list.unwrap()@.len() ==> (#[trigger] info.piece_list.unwrap()@[i])@ == chunk(info.pieces@, 20, i)
    &&& info.num_pieces == Some((num_chunks(info.pieces@.len() as int, 20) as u32))
    &&& info.size matches Some(v) ==> content_size(info.length, info.files) == Some(v as int)
    &&& info.size is None <==> content_size(info.length, info.files) is None
}

impl Info {
    /// Reads the info dictionary: name, piece length and pieces are
    /// required; the rest is optional. The piece list, the number of
    /// pieces and the size are derived as `from_parts` does.
    pub fn from_bencode(b: &Bencode) -> (r: Result<Info, DecoderError>)
        ensures
            !(b is Dict) ==> r == Err::<Info, DecoderError>(DecoderError::NotADict),
            r is Ok <==> (b matches Bencode::Dict(d) && info_ok(d@)),
            r matches Ok(info) ==> (b matches Bencode::Dict(d) && info_read(info, d@)),
    {
        match b {
            Bencode::Dict(d) => {
                let k_pieces: [u8; 6] = [0x70, 0x69, 0x65, 0x63, 0x65, 0x73];
                let k_length: [u8; 6] = [0x6c, 0x65, 0x6e, 0x67, 0x74, 0x68];
                let k_files: [u8; 5] = [0x66, 0x69, 0x6c, 0x65, 0x73];
                let k_name: [u8; 4] = [0x6e, 0x61, 0x6d, 0x65];
                let k_piece_length: [u8; 12] = [0x70, 0x69, 0x65, 0x63, 0x65, 0x20, 0x6c, 0x65, 0x6e, 0x67, 0x74, 0x68];
                let k_md5sum: [u8; 6] = [0x6d, 0x64, 0x35, 0x73, 0x75, 0x6d];
                let k_private: [u8; 7] = [0x70, 0x72, 0x69, 0x76, 0x61, 0x74, 0x65];
                let k_path: [u8; 4] = [0x70, 0x61, 0x74, 0x68];
                let k_root_hash: [u8; 9] = [0x72, 0x6f, 0x6f, 0x74, 0x5f, 0x68, 0x61, 0x73, 0x68];
                assert(k_pieces@ =~= key_pieces());
                assert(k_length@ =~= key_length());
                assert(k_files@ =~= key_files());
                assert(k_name@ =~= key_name());
                assert(k_piece_length@ =~= key_piece_length());
                assert(k_md5sum@ =~= key_md5sum());
                assert(k_path@ =~= key_path());
                assert(k_private@ =~= key_private());
                assert(k_root_hash@ =~= key_root_hash());
                let pieces = match get_bytes(d, k_pieces.as_slice())? {
                    Some(p) => vstd::slice::slice_to_vec(p),
                    None => {
                        return Err(DecoderError::DoesntContain);
                    },
                };
                let length = get_u64(d, k_length.as_slice())?;
                let files = match dict_lookup(d, k_files.as_slice()) {
                    None => None,
                    Some(Bencode::List(l)) => Some(files_from_bencode(l)?),
                    Some(_) => {
                        return Err(DecoderError::NotAList);
                    },
                };
                let name = match get_str(d, k_name.as_slice())? {
                    Some(n) => n,
                    None => {
                        return Err(DecoderError::DoesntContain);
                    },
                };
                let piece_length = match get_u64(d, k_piece_length.as_slice())? {
                    Some(l) => l,
                    None => {
                        return Err(DecoderError::DoesntContain);
                    },
                };
                let md5sum = get_str(d, k_md5sum.as_slice())?;
                let private = match get_u64(d, k_private.as_slice())? {
                    Some(p) => if p <= 255 { Some(p as u8) } else { return Err(DecoderError::NotANumber) },
                    None => None,
                };
                let path = get_str_list(d, k_path.as_slice())?;
                let root_hash = get_str(d, k_root_hash.as_slice())?;
                if length.is_none() {
                    match &files {
                        Some(f) => {
                            proof {
                                match dict_get(d@, key_files()) {
                                    Some(Bencode::List(l)) => lemma_files_size_entries(f@, l@),
                                    _ => {},
                                }
                            }
                            if checked_files_size(f).is_none() {
                                return Err(DecoderError::Overflow);
                            }
                        },
                        None => {},
                    }
                }
                Ok(Info::from_parts(name, length, files, piece_length, pieces, md5sum, private, path, root_hash))
            },
            _ => Err(DecoderError::NotADict),
        }
    }
}

/// The info hash of the torrent, in its three forms, is the SHA-1 digest
/// of the given bencoded info dictionary.
pub open spec fn hashes_of(m: MetaInfo, info_bytes: Seq<u8>) -> bool {
    &&& m.info_hash matches Some(h) && h@ == sha1_digest(info_bytes)
    &&& m.info_hash_hex matches Some(x) && x@ == hex_lower(sha1_digest(info_bytes))
    &&& m.info_hash_ascii matches Some(a) && a@ == percent_encoded(sha1_digest(info_bytes))
}

/// The value is a torrent dictionary that reads as a torrent.
pub open spec fn torrent_ok(b: Bencode) -> bool {
    b matches Bencode::Dict(d) && meta_ok(d@)
}

/// The torrent was read out of the value.
pub open spec fn torrent_read(m: MetaInfo, b: Bencode) -> bool {
    b matches Bencode::Dict(d) && meta_read(m, d@)
}

/// `nodes`.
pub open spec fn key_nodes() -> Seq<u8> { seq![0x6eu8, 0x6f, 0x64, 0x65, 0x73] }
/// `encoding`.
pub open spec fn key_encoding() -> Seq<u8> { seq![0x65u8, 0x6e, 0x63, 0x6f, 0x64, 0x69, 0x6e, 0x67] }
/// `httpseeds`.
pub open spec fn key_httpseeds() -> Seq<u8> { seq![0x68u8, 0x74, 0x74, 0x70, 0x73, 0x65, 0x65, 0x64, 0x73] }
/// `creation_date`.
pub open spec fn key_creation_date() -> Seq<u8> { seq![0x63u8, 0x72, 0x65, 0x61, 0x74, 0x69, 0x6f, 0x6e, 0x5f, 0x64, 0x61, 0x74, 0x65] }
/// `created by`.
pub open spec fn key_created_by() -> Seq<u8> { seq![0x63u8, 0x72, 0x65, 0x61, 0x74, 0x65, 0x64, 0x20, 0x62, 0x79] }
/// `comment`.
pub open spec fn key_comment() -> Seq<u8> { seq![0x63u8, 0x6f, 0x6d, 0x6d, 0x65, 0x6e, 0x74] }

/// The optional nodes field is missing or a list of dictionaries.
pub open spec fn nodes_ok(d: Seq<(Vec<u8>, Bencode)>) -> bool {
    match dict_get(d, key_nodes()) {
        None => true,
        Some(Bencode::List(l)) => forall|i: int| 0 <= i < l@.len() ==> (#[trigger] l@[i]) is Dict,
        Some(_) => false,
    }
}

/// A torrent dictionary that reads as a torrent: an info dictionary that
/// reads as one, and every other field missing or of its type.
pub open spec fn meta_ok(d: Seq<(Vec<u8>, Bencode)>) -> bool {
    &&& dict_get(d, key_info()) matches Some(Bencode::Dict(info)) && info_ok(info@)
    &&& str_ok(d, key_announce(), false)
    &&& str_list_list_ok(d, key_announce_list())
    &&& nodes_ok(d)
    &&& str_ok(d, key_encoding(), false)
    &&& str_list_ok(d, key_httpseeds())
    &&& u64_ok(d, key_creation_date(), false)
    &&& str_ok(d, key_created_by(), false)
    &&& str_ok(d, key_comment(), false)
}

/// The torrent was read out of the dictionary: its info out of the info
/// dictionary, whose bencoding gives the hashes; a missing `created by`
/// reads as the empty string; each node entry as the placeholder node.
pub open spec fn meta_read(m: MetaInfo, d: Seq<(Vec<u8>, Bencode)>) -> bool {
    &&& dict_get(d, key_info()) matches Some(info) && info matches Bencode::Dict(id)
        && info_read(m.info, id@) && hashes_of(m, encode(info))
    &&& str_read(m.announce, d, key_announce())
    &&& m.announce_list is Some <==> dict_get(d, key_announce_list()) is Some
    &&& str_read(m.encoding, d, key_encoding())
    &&& str_list_read(m.httpseeds, d, key_httpseeds())
    &&& u64_field(d, key_creation_date()) == Ok::<Option<u64>, DecoderError>(m.creation_date)
    &&& str_read(m.comment, d, key_comment())
    &&& match str_field(d, key_created_by()) {
        Ok(Some(t)) => m.created_by matches Some(c) && c@ == t,
        _ => m.created_by matches Some(c) && c@ == Seq::<char>::empty(),
    }
    &&& match dict_get(d, key_nodes()) {
        Some(Bencode::List(l)) => m.nodes matches Some(ns) && ns@.len() == l@.len()
            && forall|i: int| 0 <= i < ns@.len() ==> (#[trigger] ns@[i]).0@ == "node"@ && ns@[i].1 == 100,
        _ => m.nodes is None,
    }
}

impl MetaInfo {
    /// Reads a torrent: its info dictionary is required; the info hash is
    /// the SHA-1 of the info dictionary's bencoding, which for a decoded
    /// torrent is the bytes it was read from.
    pub fn from_bencode(b: &Bencode) -> (r: Result<MetaInfo, DecoderError>)
        ensures
            !(b is Dict) ==> r == Err::<MetaInfo, DecoderError>(DecoderError::NotADict),
            r is Ok <==> (b matches Bencode::Dict(d) && meta_ok(d@)),
            r matches Ok(m) ==> (b matches Bencode::Dict(d) && meta_read(m, d@)),
    {
        match b {
            Bencode::Dict(d) => {
                let k_info: [u8; 4] = [0x69, 0x6e, 0x66, 0x6f];
                let k_announce: [u8; 8] = [0x61, 0x6e, 0x6e, 0x6f, 0x75, 0x6e, 0x63, 0x65];
                let k_announce_list: [u8; 13] = [0x61, 0x6e, 0x6e, 0x6f, 0x75, 0x6e, 0x63, 0x65, 0x2d, 0x6c, 0x69, 0x73, 0x74];
                let k_nodes: [u8; 5] = [0x6e, 0x6f, 0x64, 0x65, 0x73];
                let k_encoding: [u8; 8] = [0x65, 0x6e, 0x63, 0x6f, 0x64, 0x69, 0x6e, 0x67];
                let k_httpseeds: [u8; 9] = [0x68, 0x74, 0x74, 0x70, 0x73, 0x65, 0x65, 0x64, 0x73];
                let k_creation_date: [u8; 13] = [0x63, 0x72, 0x65, 0x61, 0x74, 0x69, 0x6f, 0x6e, 0x5f, 0x64, 0x61, 0x74, 0x65];
                let k_created_by: [u8; 10] = [0x63, 0x72, 0x65, 0x61, 0x74, 0x65, 0x64, 0x20, 0x62, 0x79];
                let k_comment: [u8; 7] = [0x63, 0x6f, 0x6d, 0x6d, 0x65, 0x6e, 0x74];
                assert(k_info@ =~= key_info());
                assert(k_announce@ =~= key_announce());
                assert(k_announce_list@ =~= key_announce_list());
                assert(k_nodes@ =~= key_nodes());
                assert(k_encoding@ =~= key_encoding());
                assert(k_httpseeds@ =~= key_httpseeds());
                assert(k_creation_date@ =~= key_creation_date());
                assert(k_created_by@ =~= key_created_by());
                assert(k_comment@ =~= key_comment());
                let info_value = match dict_lookup(d, k_info.as_slice()) {
                    Some(v) => v,
                    None => {
                        return Err(DecoderError::DoesntContain);
                    },
                };
                let info_bytes = encode_value(info_value);
                let info = Info::from_bencode(info_value)?;
                let announce = get_str(d, k_announce.as_slice())?;
                let announce_list = get_str_list_list(d, k_announce_list.as_slice())?;
                let nodes = match dict_lookup(d, k_nodes.as_slice()) {
                    None => None,
                    Some(Bencode::List(l)) => {
                        let mut out: Vec<Node> = Vec::new();
                        let mut i: usize = 0;
                        while i < l.len()
                            invariant
                                i <= l@.len(),
                                out@.len() == i,
                                forall|j: int| 0 <= j < i ==> (#[trigger] l@[j]) is Dict,
                                forall|j: int| 0 <= j < i ==> (#[trigger] out@[j]).0@ == "node"@ && out@[j].1 == 100,
                                *b == Bencode::Dict(*d),
                                dict_get(d@, key_nodes()) == Some(Bencode::List(*l)),
                            decreases l@.len() - i,
                        {
                            out.push(Node::from_bencode(&l[i])?);
                            i = i + 1;
                        }
                        Some(out)
                    },
                    Some(_) => {
                        return Err(DecoderError::NotAList);
                    },
                };
                let encoding = get_str(d, k_encoding.as_slice())?;
                let httpseeds = get_str_list(d, k_httpseeds.as_slice())?;
                let creation_date = get_u64(d, k_creation_date.as_slice())?;
                let created_by = match get_str(d, k_created_by.as_slice())? {
                    Some(c) => Some(c),
                    None => Some(String::new()),
                };
                let comment = get_str(d, k_comment.as_slice())?;
                let m = MetaInfo::from_parts(info, info_bytes.as_slice(), announce, announce_list, nodes, encoding, httpseeds,
                    creation_date, created_by, comment);
                proof {
                    assert(dict_get(d@, key_info()) matches Some(iv) && iv matches Bencode::Dict(id)
                        && info_read(m.info, id@) && hashes_of(m, encode(iv)));
                    assert(str_read(m.announce, d@, key_announce()));
                    assert(m.announce_list is Some <==> dict_get(d@, key_announce_list()) is Some);
                    assert(str_read(m.encoding, d@, key_encoding()));
                    assert(str_list_read(m.httpseeds, d@, key_httpseeds()));
                    assert(str_read(m.comment, d@, key_comment()));
                    assert(u64_field(d@, key_creation_date()) == Ok::<Option<u64>, DecoderError>(m.creation_date));
                    assert(match str_field(d@, key_created_by()) {
                        Ok(Some(t)) => m.created_by matches Some(c) && c@ == t,
                        _ => m.created_by matches Some(c) && c@ == Seq::<char>::empty(),
                    });
                    assert(match dict_get(d@, key_nodes()) {
                        Some(Bencode::List(l)) => m.nodes matches Some(ns) && ns@.len() == l@.len()
                            && forall|i: int| 0 <= i < ns@.len() ==> (#[trigger] ns@[i]).0@ == "node"@ && ns@[i].1 == 100,
                        _ => m.nodes is None,
                    });
                }
                Ok(m)
            },
            _ => Err(DecoderError::NotADict),
        }
    }

    /// Reads a torrent file's bytes: they must be the bencoding of a
    /// dictionary that reads as a torrent, the info hash being taken of the
    /// bencoding of its info dictionary. Bytes that are no bencoding fail;
    /// bytes every reading of which is a torrent succeed.
    pub fn from_bytes(bytes: &[u8]) -> (r: Result<MetaInfo, Error>)
        ensures
            r matches Ok(m) ==> exists|b: Bencode| #[trigger] encode(b) == bytes@ && fits_depth(b, 0)
                && torrent_ok(b) && torrent_read(m, b),
            !decodable(bytes@) ==> r is Err,
            decodable(bytes@) && (forall|b: Bencode| #[trigger] encode(b) == bytes@ && fits_depth(b, 0) ==> torrent_ok(b))
                ==> r is Ok,
    {
        match crate::dht::decode::decode(bytes) {
            Ok(b) => match MetaInfo::from_bencode(&b) {
                Ok(m) => Ok(m),
                Err(_) => Err(Error::DecodeError()),
            },
            Err(_) => Err(Error::DecodeError()),
        }
    }
}

} // verus!
