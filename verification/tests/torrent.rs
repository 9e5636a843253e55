use btp::client::{generate_peer_id, generate_peer_id_bytes, pieces_spilt};
use btp::decoder::{get_str, get_str_list, get_u64, utf8_string, DecoderError};
use btp::dht::decode::decode;
use btp::download::{
    all_complete, have_pieces, retrieve_range, Error as DownloadError, incomplete_blocks_for_piece, should_store_block, store_events,
    Piece, IPC,
};
use btp::meta_info::{split_piece_hashes, Info, MetaInfo};
use btp::sha::{hash_eq, percent_encode_non_alphanumeric, sha1_bytes, to_hex_lower};
use btp::wire::BLOCK_SIZE;
use btp::dht::bencode::Bencode;

fn hex(bytes: &[u8]) -> String {
    to_hex_lower(bytes)
}

#[test]
fn sha1_known_vectors() {
    assert_eq!(hex(&sha1_bytes(b"")), "da39a3ee5e6b4b0d3255bfef95601890afd80709");
    assert_eq!(hex(&sha1_bytes(b"abc")), "a9993e364706816aba3e25717850c26c9cd0d89d");
    assert!(hash_eq(&sha1_bytes(b"abc"), &sha1_bytes(b"abc")));
    assert!(!hash_eq(&sha1_bytes(b"abc"), &sha1_bytes(b"abd")));
}

#[test]
fn hex_and_percent_encoding() {
    assert_eq!(to_hex_lower(&[0x00, 0x0f, 0xab]), "000fab");
    assert_eq!(percent_encode_non_alphanumeric(b"aZ9 -/\x01\xff"), "aZ9%20%2D%2F%01%FF");
}

#[test]
fn split_hashes_in_twenties() {
    let mut pieces = vec![1u8; 20];
    pieces.extend_from_slice(&[2u8; 20]);
    pieces.extend_from_slice(&[3u8; 5]);
    let list = split_piece_hashes(&pieces);
    assert_eq!(list.len(), 3);
    assert_eq!(list[1], vec![2u8; 20]);
    assert_eq!(list[2], vec![3u8; 5]);
    assert!(split_piece_hashes(&[]).is_empty());
}

fn tiny_torrent() -> Vec<u8> {
    let mut t = b"d8:announce20:udp://tracker:80/ann4:infod6:lengthi40000e4:name5:a.txt12:piece lengthi32768e6:pieces40:".to_vec();
    t.extend_from_slice(&[7u8; 40]);
    t.extend_from_slice(b"ee");
    t
}

#[test]
fn metainfo_from_bytes() {
    let bytes = tiny_torrent();
    let m = MetaInfo::from_bytes(&bytes).unwrap();
    assert_eq!(m.announce.as_deref(), Some("udp://tracker:80/ann"));
    assert_eq!(m.info.name, "a.txt");
    assert_eq!(m.info.length, Some(40000));
    assert_eq!(m.info.size, Some(40000));
    assert_eq!(m.info.piece_length, 32768);
    assert_eq!(m.info.num_pieces, Some(2));
    assert_eq!(m.info.piece_list.as_ref().unwrap()[0], vec![7u8; 20]);
    assert_eq!(m.created_by.as_deref(), Some(""));

    let start = bytes.windows(6).position(|w| w == b"4:info").unwrap() + 6;
    let info_bytes = &bytes[start..bytes.len() - 1];
    let digest = sha1_bytes(info_bytes);
    assert_eq!(m.info_hash.as_deref(), Some(&digest[..]));
    assert_eq!(m.info_hash_hex, Some(to_hex_lower(&digest)));
    assert_eq!(m.info_hash_ascii, Some(percent_encode_non_alphanumeric(&digest)));
}

#[test]
fn metainfo_errors() {
    assert!(MetaInfo::from_bytes(b"").is_err());
    assert!(MetaInfo::from_bytes(b"d8:announce3:abce").is_err());
    assert!(MetaInfo::from_bytes(b"d4:infod4:name1:aee").is_err());
    assert!(MetaInfo::from_bytes(b"le").is_err());
}

#[test]
fn info_multi_file_size() {
    let v = decode(b"d5:filesld6:lengthi3e4:pathl1:aeed6:lengthi4e4:pathl1:b1:ceee4:name3:dir12:piece lengthi16e6:pieces0:e").unwrap();
    let info = Info::from_bencode(&v).unwrap();
    assert_eq!(info.size, Some(7));
    let files = info.files.unwrap();
    assert_eq!(files.len(), 2);
    assert_eq!(files[1].path, vec!["b".to_string(), "c".to_string()]);
    assert_eq!(info.num_pieces, Some(0));
}

#[test]
fn decoder_fields() {
    let v = decode(b"d1:ai5e1:b3:xyz1:ll1:p1:qe1:n2:\xff\xfee").unwrap();
    let d = match &v {
        Bencode::Dict(d) => d,
        _ => panic!("not a dictionary"),
    };
    assert_eq!(get_u64(d, b"a"), Ok(Some(5)));
    assert_eq!(get_u64(d, b"b"), Err(DecoderError::NotANumber));
    assert_eq!(get_u64(d, b"zz"), Ok(None));
    assert_eq!(get_str(d, b"b"), Ok(Some("xyz".to_string())));
    assert_eq!(get_str(d, b"n"), Err(DecoderError::NotUtf8));
    assert_eq!(get_str_list(d, b"l"), Ok(Some(vec!["p".to_string(), "q".to_string()])));
    assert_eq!(utf8_string(b"h\xc3\xa9"), Some("hé".to_string()));
    assert_eq!(utf8_string(b"\xc3"), None);
}

#[test]
fn peer_ids() {
    let b = generate_peer_id_bytes();
    assert_eq!(b.len(), 20);
    assert_eq!(&b[..8], b"-btX001-");
    assert!(b[8..].iter().all(|c| matches!(c, b'a'..=b'x' | b'A'..=b'X' | b'0'..=b'8' | b'y' | b'Y')));
    let s = generate_peer_id();
    assert_eq!(s.len(), 20);
    assert!(s.starts_with("-btX001-"));
}

#[test]
fn pieces_split_offsets_and_last_length() {
    let hashes = vec![vec![1u8; 20], vec![2u8; 20], vec![3u8; 20]];
    let pieces = pieces_spilt(40000, 16384, 3, hashes);
    assert_eq!(pieces.len(), 3);
    assert_eq!(pieces[1].offset, 16384);
    assert_eq!(pieces[1].length, 16384);
    assert_eq!(pieces[2].offset, 32768);
    assert_eq!(pieces[2].length, 40000 - 32768);
    assert_eq!(pieces[2].hash, vec![3u8; 20]);
    assert_eq!(pieces[0].blocks.len(), 1);
    assert!(!pieces[0].is_complete);
}

#[test]
fn piece_blocks_cover_length() {
    let p = Piece::new(40000, 0, vec![0; 20]);
    assert_eq!(p.blocks.len(), 3);
    assert_eq!(p.blocks[0].length, BLOCK_SIZE);
    assert_eq!(p.blocks[2].length, 40000 - 2 * BLOCK_SIZE);
    let total: u32 = p.blocks.iter().map(|b| b.length).sum();
    assert_eq!(total, 40000);
    assert!(Piece::new(0, 0, vec![]).blocks.is_empty());
}

#[test]
fn piece_block_lifecycle() {
    let data = vec![5u8; 20000];
    let digest = sha1_bytes(&data);
    let mut p = Piece::new(20000, 0, digest.to_vec());
    assert!(!p.after_block_stored(0));
    assert!(p.has_block(0));
    assert_eq!(p.incomplete_blocks(), vec![(1, 20000 - BLOCK_SIZE)]);
    assert!(p.after_block_stored(1));
    assert!(p.has_all_blocks());
    assert!(!p.finish_verification(&[1, 2, 3]));
    assert!(!p.has_block(0));
    assert!(!p.is_complete);
    p.after_block_stored(0);
    p.after_block_stored(1);
    assert!(p.finish_verification(&data));
    assert!(p.is_complete);
    assert!(p.incomplete_blocks().is_empty());
}

#[test]
fn download_state_events() {
    let mut pieces = vec![Piece::new(10, 0, vec![]), Piece::new(10, 10, vec![])];
    assert!(should_store_block(&pieces[0], 0));
    let (n, have) = have_pieces(&pieces, 4);
    assert_eq!(n, 2);
    assert_eq!(have, vec![false, false, false, false]);
    pieces[0].is_complete = true;
    assert!(!should_store_block(&pieces[0], 0));
    let events = store_events(&pieces, 0, 0);
    assert!(matches!(events[0], IPC::BlockComplete(0, 0)));
    assert!(matches!(events[1], IPC::PieceComplete(0)));
    assert_eq!(events.len(), 2);
    assert!(!all_complete(&pieces));
    pieces[1].is_complete = true;
    let events = store_events(&pieces, 1, 0);
    assert_eq!(events.len(), 3);
    assert!(matches!(events[2], IPC::DownloadComplete));
    assert!(incomplete_blocks_for_piece(&pieces, 1).is_empty());
}

#[test]
fn retrieve_only_complete_pieces() {
    let mut pieces = vec![Piece::new(10, 0, vec![]), Piece::new(10, 32768, vec![])];
    assert!(matches!(retrieve_range(&pieces, 1, 5, 3), Err(DownloadError::MissingPieceData)));
    pieces[1].is_complete = true;
    assert_eq!(retrieve_range(&pieces, 1, 5, 3).unwrap(), (32773, 3));
}
