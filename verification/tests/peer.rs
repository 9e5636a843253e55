use btp::download::{Piece, IPC};
use btp::peer_connection::{
    check_handshake, handshake_bytes, Effect, Error, PeerConnection, RequestQueue,
    MAX_CONCURRENT_REQUESTS, REQUEST_BATCH,
};
use btp::wire::{Message, BLOCK_SIZE};

#[test]
fn handshake_layout() {
    let hash = [0x11u8; 20];
    let id = [0x22u8; 20];
    let h = handshake_bytes(&hash, &id);
    assert_eq!(h.len(), 68);
    assert_eq!(h[0], 19);
    assert_eq!(&h[1..20], b"BitTorrent protocol");
    assert_eq!(&h[20..28], &[0u8; 8]);
    assert_eq!(&h[28..48], &hash);
    assert_eq!(&h[48..68], &id);
}

#[test]
fn handshake_checks() {
    let ours = [1u8; 20];
    let me = [2u8; 20];
    assert!(matches!(check_handshake(&[3u8; 20], &[4u8; 20], &ours, &me), Err(Error::InvalidInfoHash)));
    assert!(matches!(check_handshake(&ours, &me, &ours, &me), Err(Error::ConnectingToSelf)));
    assert!(check_handshake(&ours, &[4u8; 20], &ours, &me).is_ok());
}

#[test]
fn request_queue_keeps_one_request_per_block() {
    let mut q = RequestQueue::new();
    assert!(q.add(1, 0, 0, 16384));
    assert!(q.add(1, 1, 16384, 100));
    assert!(!q.add(1, 0, 0, 16384));
    assert_eq!(q.len(), 2);
    assert!(q.has(1, 1));
    let r = q.remove(1, 1).unwrap();
    assert_eq!(r.block_length, 100);
    assert!(!q.has(1, 1));
    assert!(q.remove(1, 1).is_none());
    assert_eq!(q.pop().unwrap().piece_index, 1);
    assert!(q.pop().is_none());
}

fn two_pieces() -> Vec<Piece> {
    vec![Piece::new(2 * BLOCK_SIZE, 0, vec![0; 20]), Piece::new(100, 2 * BLOCK_SIZE as u64, vec![1; 20])]
}

#[test]
fn new_connection_state() {
    let c = PeerConnection::new(2, vec![true, false]);
    assert!(!c.halt);
    assert!(c.me.is_choked && c.them.is_choked);
    assert_eq!(c.them.has_pieces, vec![false, false]);
    assert_eq!(c.request_size, REQUEST_BATCH);
    match c.bitfield_message() {
        Message::Bitfield(b) => assert_eq!(b, vec![0x80]),
        _ => panic!("expected a bitfield"),
    }
}

#[test]
fn choke_interest_and_port() {
    let pieces = two_pieces();
    let mut c = PeerConnection::new(2, vec![false, false]);
    let out = c.process_message(Message::Interested, &pieces, 2).unwrap();
    assert!(c.them.is_interested);
    assert!(!c.them.is_choked);
    assert!(matches!(out[0], Effect::Send(Message::Unchoke)));
    let out = c.process_message(Message::NotInterested, &pieces, 2).unwrap();
    assert!(out.is_empty());
    assert!(!c.them.is_interested);
    let out = c.process_message(Message::Choke, &pieces, 2).unwrap();
    assert!(out.is_empty());
    assert!(c.me.is_choked);
    assert!(matches!(c.process_message(Message::Port, &pieces, 2), Err(Error::UnknownRequestType(Message::Port))));
}

#[test]
fn bitfield_then_unchoke_requests_blocks() {
    let pieces = two_pieces();
    let mut c = PeerConnection::new(2, vec![false, false]);
    c.process(IPC::CatComplete, &pieces, 2).unwrap();
    assert!(c.cat_status);
    c.process_message(Message::Bitfield(vec![0xc0]), &pieces, 2).unwrap();
    assert_eq!(c.them.has_pieces, vec![true, true]);
    assert!(c.me.is_interested);
    let out = c.process_message(Message::Unchoke, &pieces, 2).unwrap();
    assert!(!c.me.is_choked);
    let requests: Vec<&Effect> = out.iter().filter(|e| matches!(e, Effect::Send(Message::Request(..)))).collect();
    assert_eq!(requests.len(), 3);
    assert_eq!(c.me.requests.len(), 3);
    assert!(c.me.requests.len() <= MAX_CONCURRENT_REQUESTS as usize);
}

#[test]
fn piece_message_stores_block() {
    let pieces = two_pieces();
    let mut c = PeerConnection::new(2, vec![false, false]);
    let out = c.process_message(Message::Piece(1, 0, vec![1, 2, 3]), &pieces, 2).unwrap();
    match &out[0] {
        Effect::Store { piece_index, block_index, data } => {
            assert_eq!((*piece_index, *block_index), (1, 0));
            assert_eq!(data, &vec![1, 2, 3]);
        }
        _ => panic!("expected a store"),
    }
    assert_eq!(c.download_size, 3);
}

#[test]
fn request_from_unchoked_peer_uploads() {
    let pieces = two_pieces();
    let mut c = PeerConnection::new(2, vec![true, true]);
    c.process_message(Message::Interested, &pieces, 2).unwrap();
    let out = c.process_message(Message::Request(0, BLOCK_SIZE, BLOCK_SIZE), &pieces, 2).unwrap();
    assert!(out.iter().any(|e| matches!(e, Effect::Upload(r) if r.piece_index == 0 && r.block_index == 1)));
    let out = c.process_message(Message::Cancel(0, BLOCK_SIZE, BLOCK_SIZE), &pieces, 2).unwrap();
    assert!(out.is_empty() || !c.them.requests.has(0, 1));
    assert!(!c.them.requests.has(0, 1));
}

#[test]
fn have_and_events() {
    let pieces = two_pieces();
    let mut c = PeerConnection::new(2, vec![false, false]);
    c.process_message(Message::Have(1), &pieces, 2).unwrap();
    assert_eq!(c.them.has_pieces, vec![false, true]);
    let out = c.process(IPC::PieceComplete(0), &pieces, 2).unwrap();
    assert!(matches!(out.last(), Some(Effect::Send(Message::Have(0)))));
    assert_eq!(c.me.has_pieces, vec![true, false]);
    let out = c.process(IPC::BlockComplete(1, 0), &pieces, 2).unwrap();
    assert!(out.is_empty());
    let out = c.process(IPC::Upstream_Error, &pieces, 2).unwrap();
    assert!(matches!(out[..], [Effect::Close]));
    c.process(IPC::DownloadComplete, &pieces, 2).unwrap();
    assert!(c.halt);
    assert!(matches!(c.process(IPC::Message(Message::Port), &pieces, 2), Err(_)));
}

#[test]
fn piece_complete_and_block_uploaded_effects() {
    let pieces = two_pieces();
    let mut c = PeerConnection::new(2, vec![false, false]);
    // nothing wanted and not interested: only the Have goes out
    let out = c.process(IPC::PieceComplete(1), &pieces, 2).unwrap();
    assert!(matches!(out[..], [Effect::Send(Message::Have(1))]));

    // the peer is interested and unchoked, and asked for two blocks
    let mut c = PeerConnection::new(2, vec![true, true]);
    c.process_message(Message::Interested, &pieces, 2).unwrap();
    c.process_message(Message::Request(0, BLOCK_SIZE, BLOCK_SIZE), &pieces, 2).unwrap();
    c.process_message(Message::Request(0, 0, BLOCK_SIZE), &pieces, 2).unwrap();
    let out = c.process(IPC::BlockUploaded, &pieces, 2).unwrap();
    assert_eq!(out.len(), 1);
    assert!(matches!(&out[0], Effect::Upload(r) if r.piece_index == 0));
    assert!(c.upload_in_progress);
    let out = c.process(IPC::BlockUploaded, &pieces, 2).unwrap();
    assert!(out.is_empty());
    assert!(!c.upload_in_progress);
}

#[test]
fn piece_answers_its_request_and_interest_follows() {
    let pieces = two_pieces();
    let mut c = PeerConnection::new(2, vec![false, false]);
    c.process(IPC::CatComplete, &pieces, 2).unwrap();
    c.process_message(Message::Bitfield(vec![0xc0]), &pieces, 2).unwrap();
    c.process_message(Message::Unchoke, &pieces, 2).unwrap();
    assert_eq!(c.me.requests.len(), 3);
    assert!(c.to_request.is_empty());

    let out = c.process_message(Message::Piece(0, BLOCK_SIZE, vec![7; 4]), &pieces, 2).unwrap();
    assert!(!c.me.requests.has(0, 1));
    assert_eq!(c.me.requests.len(), 2);
    assert_eq!(out.len(), 1);
    assert!(matches!(out[0], Effect::Store { piece_index: 0, block_index: 1, .. }));
    assert!(c.me.is_interested);

    c.process_message(Message::Piece(0, 0, vec![7; 4]), &pieces, 2).unwrap();
    let out = c.process_message(Message::Piece(1, 0, vec![7; 4]), &pieces, 2).unwrap();
    assert_eq!(c.me.requests.len(), 0);
    assert!(!c.me.is_interested);
    assert_eq!(out.len(), 2);
    assert!(matches!(out[1], Effect::Send(Message::NotInterested)));
}

#[test]
fn cat_complete_queues_every_listed_piece() {
    let pieces = two_pieces();
    let mut c = PeerConnection::new(0, vec![false, false]);
    c.process_message(Message::Bitfield(vec![0xc0]), &pieces, 2).unwrap();
    assert_eq!(c.un_cat_num_list, vec![0, 1]);
    assert!(c.to_request.is_empty());
    assert!(!c.me.is_interested);

    let out = c.process(IPC::CatComplete, &pieces, 2).unwrap();
    assert_eq!(c.to_request.len(), 3);
    assert!(c.cat_num_list.is_empty() && c.un_cat_num_list.is_empty());
    assert!(c.me.is_interested);
    assert_eq!(out.len(), 1);
    assert!(matches!(out[0], Effect::Send(Message::Interested)));

    let out = c.process_message(Message::Unchoke, &pieces, 2).unwrap();
    assert_eq!(out.len(), 3);
    assert_eq!(c.me.requests.len(), 3);
    assert!(c.to_request.is_empty());
}

#[test]
fn keep_alive_queues_the_peers_pieces_once_all_are_split() {
    let pieces = two_pieces();
    let mut c = PeerConnection::new(0, vec![false, false]);
    c.process_message(Message::Bitfield(vec![0x40]), &pieces, 2).unwrap();
    let out = c.process_message(Message::KeepAlive, &pieces, 2).unwrap();
    assert_eq!(c.cat_num, 2);
    assert_eq!(c.to_request, vec![(1, 0, 100)]);
    assert!(c.cat_num_list.is_empty() && c.un_cat_num_list.is_empty());
    assert!(c.me.is_interested);
    assert!(matches!(out[..], [Effect::Send(Message::Interested)]));

    let mut c = PeerConnection::new(0, vec![false, false, false]);
    c.process_message(Message::Bitfield(vec![0xc0]), &pieces, 3).unwrap();
    let out = c.process_message(Message::KeepAlive, &pieces, 3).unwrap();
    assert_eq!(c.cat_num_list, vec![0, 1]);
    assert!(c.un_cat_num_list.is_empty());
    assert!(c.to_request.is_empty());
    assert!(out.is_empty());
}

#[test]
fn interest_unchokes_and_uploads_a_waiting_request() {
    let pieces = two_pieces();
    let mut c = PeerConnection::new(2, vec![true, true]);
    let out = c.process_message(Message::Request(0, 0, BLOCK_SIZE), &pieces, 2).unwrap();
    assert!(out.is_empty());
    assert!(c.them.requests.has(0, 0));
    let out = c.process_message(Message::Interested, &pieces, 2).unwrap();
    assert_eq!(out.len(), 2);
    assert!(matches!(out[0], Effect::Send(Message::Unchoke)));
    assert!(matches!(&out[1], Effect::Upload(r) if r.piece_index == 0 && r.block_index == 0 && r.offset == 0));
    assert!(c.upload_in_progress);
    assert!(!c.them.requests.has(0, 0));
    let out = c.process_message(Message::Interested, &pieces, 2).unwrap();
    assert!(out.is_empty());
}
