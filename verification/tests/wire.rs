use btp::wire::{bytes_to_u32, is_frame_decodable, u32_to_bytes, Message, BLOCK_SIZE};
use btp::bitfield::{bitfield_from_pieces, pieces_from_bitfield};
use btp::peer_wire::{
    bytes_needed, wire_is_keep_alive, wire_keep_alive, ExtendedMessage, ExtensionError, NullProtocolMessage, PeerExtensionProtocolMessage,
    PeerWireMessageCodec,
};

#[test]
fn test_alive_msg() {
    let alive_data = [0_u8; 4];
    let msg = PeerWireMessageCodec::new().parse_bytes(&alive_data[..]);
    assert_eq!(msg.unwrap(), Message::KeepAlive);
}

#[test]
fn u32_big_endian_round_trip() {
    assert_eq!(u32_to_bytes(0x01020304), vec![1, 2, 3, 4]);
    assert_eq!(bytes_to_u32(&[0, 0, 0x40, 0]), BLOCK_SIZE);
    assert_eq!(bytes_to_u32(&u32_to_bytes(0xdeadbeef)), 0xdeadbeef);
}

#[test]
fn serialize_fixed_messages() {
    assert_eq!(Message::KeepAlive.serialize(), vec![0, 0, 0, 0]);
    assert_eq!(Message::Choke.serialize(), vec![0, 0, 0, 1, 0]);
    assert_eq!(Message::Unchoke.serialize(), vec![0, 0, 0, 1, 1]);
    assert_eq!(Message::Interested.serialize(), vec![0, 0, 0, 1, 2]);
    assert_eq!(Message::NotInterested.serialize(), vec![0, 0, 0, 1, 3]);
    assert_eq!(Message::Port.serialize(), vec![0, 0, 0, 1, 9]);
    assert_eq!(Message::Have(7).serialize(), vec![0, 0, 0, 5, 4, 0, 0, 0, 7]);
    assert_eq!(Message::Bitfield(vec![0xf0, 0x01]).serialize(), vec![0, 0, 0, 3, 5, 0xf0, 0x01]);
}

#[test]
fn serialize_request_and_cancel() {
    assert_eq!(
        Message::Request(1, 16384, 16384).serialize(),
        vec![0, 0, 0, 13, 6, 0, 0, 0, 1, 0, 0, 0x40, 0, 0, 0, 0x40, 0]
    );
    assert_eq!(
        Message::Cancel(2, 0, 5).serialize(),
        vec![0, 0, 0, 13, 8, 0, 0, 0, 2, 0, 0, 0, 0, 0, 0, 0, 5]
    );
}

#[test]
fn serialize_piece_uses_piece_id() {
    assert_eq!(
        Message::Piece(3, 4, vec![9, 9]).serialize(),
        vec![0, 0, 0, 11, 7, 0, 0, 0, 3, 0, 0, 0, 4, 9, 9]
    );
    assert_eq!(
        Message::Piece(1, 2, vec![0xAA]).serialize(),
        vec![0, 0, 0, 10, 7, 0, 0, 0, 1, 0, 0, 0, 2, 0xAA]
    );
    let s = Message::Piece(1, 2, vec![1, 2, 3, 4]).serialize();
    assert_eq!(Message::new(&s[4], &s[5..]), Message::Piece(1, 2, vec![1, 2, 3, 4]));
}

#[test]
fn new_builds_each_message() {
    assert_eq!(Message::new(&0, &[]), Message::Choke);
    assert_eq!(Message::new(&2, &[]), Message::Interested);
    assert_eq!(Message::new(&4, &[0, 0, 1, 0]), Message::Have(256));
    assert_eq!(Message::new(&5, &[1, 2, 3]), Message::Bitfield(vec![1, 2, 3]));
    assert_eq!(
        Message::new(&7, &[0, 0, 0, 1, 0, 0, 0, 2, 7, 8]),
        Message::Piece(1, 2, vec![7, 8])
    );
    assert_eq!(Message::new(&9, &[]), Message::Port);
}

#[test]
fn frame_round_trip() {
    let messages = vec![
        Message::KeepAlive,
        Message::Choke,
        Message::Have(42),
        Message::Bitfield(vec![0xaa]),
        Message::Request(1, 2, 3),
        Message::Cancel(4, 5, 6),
        Message::Port,
    ];
    for m in messages {
        let bytes = m.clone().serialize();
        assert!(is_frame_decodable(&bytes));
        assert_eq!(Message::decode_frame(&bytes), m);
    }
}

#[test]
fn frame_decodable_rejects_bad_frames() {
    assert!(!is_frame_decodable(&[0, 0, 0]));
    assert!(!is_frame_decodable(&[0, 0, 0, 2, 1]));
    assert!(!is_frame_decodable(&[0, 0, 0, 1, 10]));
    assert!(!is_frame_decodable(&[0, 0, 0, 3, 4, 0, 0]));
    assert!(is_frame_decodable(&[0, 0, 0, 5, 4, 0, 0, 0, 1]));
    assert_eq!(PeerWireMessageCodec::new().parse_bytes(&[0, 0, 0, 1, 12]), None);
}

#[test]
fn codec_sizes() {
    let codec = PeerWireMessageCodec::new();
    assert_eq!(codec.bytes_needed(&[0, 0]), None);
    assert_eq!(codec.bytes_needed(&[0, 0, 0, 5, 4]), Some(9));
    assert_eq!(bytes_needed(&[0, 0, 1, 0]), Some(260));
    assert_eq!(codec.message_size(&Message::Have(1)), 9);
    assert_eq!(codec.write_bytes(&Message::Unchoke), vec![0, 0, 0, 1, 1]);
}

#[test]
fn bitfield_round_trip() {
    let pieces = vec![true, false, true, true, false, false, false, false, true];
    let bytes = bitfield_from_pieces(&pieces);
    assert_eq!(bytes, vec![0b1011_0000, 0b1000_0000]);
    assert_eq!(pieces_from_bitfield(&bytes, 9), pieces);
}

#[test]
fn bitfield_empty_and_partial() {
    assert_eq!(bitfield_from_pieces(&[]), Vec::<u8>::new());
    assert_eq!(pieces_from_bitfield(&[0xff], 3), vec![true, true, true]);
}

#[test]
fn extension_message_round_trip() {
    let ext = Some(ExtendedMessage { ut_metadata_id: Some(3) });
    let msg = PeerExtensionProtocolMessage::UtMetadata(vec![9, 8, 7]);
    assert_eq!(msg.message_size(), 3);
    let bytes = msg.write_bytes(&ext).unwrap();
    assert_eq!(bytes, vec![0, 0, 0, 5, 20, 3, 9, 8, 7]);
    assert_eq!(PeerExtensionProtocolMessage::bytes_needed(&bytes), Some(9));
    assert_eq!(PeerExtensionProtocolMessage::parse_bytes(&bytes, &ext), Ok(msg));
}

#[test]
fn extension_message_errors() {
    let ext = Some(ExtendedMessage { ut_metadata_id: Some(3) });
    let no_id = Some(ExtendedMessage { ut_metadata_id: None });
    let msg = PeerExtensionProtocolMessage::UtMetadata(vec![1]);
    assert_eq!(msg.write_bytes(&None), Err(ExtensionError::SentBeforeExtended));
    assert_eq!(msg.write_bytes(&no_id), Err(ExtensionError::NoIdMapping));
    assert_eq!(
        PeerExtensionProtocolMessage::Custom(NullProtocolMessage).write_bytes(&None),
        Ok(Vec::new())
    );
    let frame = vec![0, 0, 0, 3, 20, 3, 1];
    assert_eq!(PeerExtensionProtocolMessage::parse_bytes(&frame, &None), Err(ExtensionError::ReceivedBeforeExtended));
    assert_eq!(PeerExtensionProtocolMessage::parse_bytes(&frame, &no_id), Err(ExtensionError::UnknownId(3)));
    let other = vec![0, 0, 0, 3, 20, 4, 1];
    assert_eq!(PeerExtensionProtocolMessage::parse_bytes(&other, &ext), Err(ExtensionError::UnknownId(4)));
    let short = vec![0, 0, 0, 9, 20, 3, 1];
    assert_eq!(PeerExtensionProtocolMessage::parse_bytes(&short, &ext), Err(ExtensionError::Truncated));
    let not_ext = vec![0, 0, 0, 3, 7, 3, 1];
    assert_eq!(PeerExtensionProtocolMessage::parse_bytes(&not_ext, &ext), Err(ExtensionError::NotExtended));
}

#[test]
fn keep_alive_and_extended_handshakes() {
    let k = wire_keep_alive();
    assert!(wire_is_keep_alive(&k));
    assert!(!wire_is_keep_alive(&Message::Choke));
    let mut codec = PeerWireMessageCodec::new();
    assert_eq!(codec.their_extended(), None);
    assert_eq!(codec.our_extended(), None);
    codec.record_theirs(ExtendedMessage { ut_metadata_id: Some(2) });
    assert_eq!(codec.their_extended(), Some(ExtendedMessage { ut_metadata_id: Some(2) }));
    assert_eq!(codec.our_extended(), None);
    codec.record_ours(ExtendedMessage { ut_metadata_id: None });
    assert_eq!(codec.our_extended(), Some(ExtendedMessage { ut_metadata_id: None }));
    assert_eq!(codec.write_bytes(&k), vec![0, 0, 0, 0]);
    assert_eq!(codec.message_size(&Message::Have(1)), 9);
}
