use btp::dht::bencode::{dict_contains, dict_lookup, usize_to_decimal, Bencode};
use btp::dht::decode::{decode, encode_value, DecodeError};
use btp::dht::handler::{
    after_bootstrap_step, after_lookup_step, announce_reply, compact_peer_bytes, connect_port,
    contact_values, handle_incoming_preprocess, ip_version_label, nood_to_less,
    rebootstrap_decision, AnnounceReply, BootstrapNext, ConnectPort, LookupNext,
    RebootstrapDecision,
};
use btp::dht::lookup::{
    distance, distance_lt, flip_id_bit_at_index, insert_sorted_node, pick_initial_nodes,
    pick_iterate_nodes, filter_unrequested, LookupInfo, LookupStatus, NodeHandle, TableLookup,
};
use btp::dht::message::{
    ActingResponse, CompactInfoType, CompactNodeInfo, DhtError, MessageType, ResponseType,
    ResponseValidate,
};
use btp::trans::SequentialIds;
use btp::dht::worker::{
    current_bootstrap_status, BootstrapStatus, DhtEvent, IpVersion, TableRefresh,
};

fn bytes_of(s: &str) -> Vec<u8> {
    s.as_bytes().to_vec()
}

fn dict_of(b: &Bencode) -> &Vec<(Vec<u8>, Bencode)> {
    match b {
        Bencode::Dict(d) => d,
        _ => panic!("not a dictionary"),
    }
}

#[test]
fn decode_small_dictionary() {
    let v = decode(b"d1:ai1e1:b2:xye").unwrap();
    let d = dict_of(&v);
    assert_eq!(d.len(), 2);
    assert!(matches!(dict_lookup(d, b"a"), Some(Bencode::Int(1))));
    match dict_lookup(d, b"b") {
        Some(Bencode::Bytes(b)) => assert_eq!(b, &bytes_of("xy")),
        _ => panic!("expected bytes"),
    }
    assert!(dict_contains(d, b"a"));
    assert!(!dict_contains(d, b"c"));
}

#[test]
fn decode_then_encode_gives_same_bytes() {
    let inputs: Vec<&[u8]> = vec![
        b"i0e",
        b"i-42e",
        b"0:",
        b"4:spam",
        b"le",
        b"li1ei2el3:abcee",
        b"d3:cow3:moo4:spam4:eggse",
        b"d1:rd2:id3:abce1:t2:aa1:y1:re",
    ];
    for input in inputs {
        let v = decode(input).unwrap();
        assert_eq!(encode_value(&v), input.to_vec());
    }
}

#[test]
fn decode_errors() {
    assert_eq!(decode(b"").unwrap_err(), DecodeError::UnexpectedEnd);
    assert!(matches!(decode(b"i01e"), Err(DecodeError::NonCanonicalNumber(_))));
    assert!(matches!(decode(b"i-0e"), Err(DecodeError::NonCanonicalNumber(_))));
    assert_eq!(decode(b"i1ex").unwrap_err(), DecodeError::TrailingBytes(3));
    assert!(matches!(decode(b"x"), Err(DecodeError::InvalidByte(0))));
    assert_eq!(decode(b"5:ab").unwrap_err(), DecodeError::Overflow(0));
    assert!(matches!(decode(b"i99999999999999999999e"), Err(DecodeError::Overflow(_))));
}

#[test]
fn decode_depth_limit() {
    let mut deep = Vec::new();
    for _ in 0..60 {
        deep.push(b'l');
    }
    for _ in 0..60 {
        deep.push(b'e');
    }
    assert_eq!(decode(&deep).unwrap_err(), DecodeError::ExceededDepth);
}

#[test]
fn decimal_text() {
    assert_eq!(usize_to_decimal(0), bytes_of("0"));
    assert_eq!(usize_to_decimal(1234), bytes_of("1234"));
}

#[test]
fn acting_response_encoding() {
    let id = [7u8; 20];
    let resp = ActingResponse::new(b"aa", id);
    let mut expected = bytes_of("d1:rd2:id20:");
    expected.extend_from_slice(&id);
    expected.extend_from_slice(b"e1:t2:aa1:y1:re");
    assert_eq!(resp.encode(), expected);
    assert_eq!(resp.transaction_id(), b"aa");
    assert_eq!(resp.node_id(), id);
}

#[test]
fn message_type_response_acting() {
    let id = [3u8; 20];
    let bytes = ActingResponse::new(b"tx", id).encode();
    let root_value = decode(&bytes).unwrap();
    let root = dict_of(&root_value);
    match MessageType::new(root) {
        Ok(MessageType::Response(ResponseType::Acting(a))) => {
            assert_eq!(a.transaction_id(), b"tx");
            assert_eq!(a.node_id(), id);
        }
        _ => panic!("expected an acting response"),
    }
}

#[test]
fn message_type_request_and_error() {
    let root_value = decode(b"d1:ad2:id20:aaaaaaaaaaaaaaaaaaaae1:q4:ping1:t2:ab1:y1:qe").unwrap();
    match MessageType::new(dict_of(&root_value)) {
        Ok(MessageType::Request { trans_id, method }) => {
            assert_eq!(trans_id, b"ab");
            assert_eq!(method, b"ping");
        }
        _ => panic!("expected a request"),
    }
    let err_value = decode(b"d1:eli201e4:oopse1:t2:cd1:y1:ee").unwrap();
    assert!(matches!(
        MessageType::new(dict_of(&err_value)),
        Ok(MessageType::Error { trans_id }) if trans_id == b"cd"
    ));
    let bad_value = decode(b"d1:t2:cd1:y1:ze").unwrap();
    match MessageType::new(dict_of(&bad_value)) {
        Err(DhtError::InvalidMessage { code }) => assert_eq!(code, bytes_of("z")),
        _ => panic!("expected an invalid message"),
    }
    let missing = decode(b"d1:y1:qe").unwrap();
    assert!(matches!(MessageType::new(dict_of(&missing)), Err(DhtError::Convert(_))));
}

#[test]
fn find_node_and_get_peers_responses() {
    let mut find = bytes_of("d1:rd2:id20:bbbbbbbbbbbbbbbbbbbb5:nodes26:");
    find.extend_from_slice(&[1u8; 26]);
    find.extend_from_slice(b"e1:t2:fn1:y1:re");
    let v = decode(&find).unwrap();
    match MessageType::new(dict_of(&v)) {
        Ok(MessageType::Response(ResponseType::FindNode(f))) => {
            assert_eq!(f.trans_id, b"fn");
            assert_eq!(f.nodes.nodes(), &[1u8; 26][..]);
        }
        _ => panic!("expected a find_node response"),
    }

    let peers = decode(b"d1:rd2:id20:cccccccccccccccccccc5:token2:tk6:valuesl6:abcdefee1:t2:gp1:y1:re").unwrap();
    match MessageType::new(dict_of(&peers)) {
        Ok(MessageType::Response(ResponseType::GetPeers(g))) => {
            assert_eq!(g.token, Some(&b"tk"[..]));
            assert!(matches!(g.info_type, CompactInfoType::Values(_)));
        }
        _ => panic!("expected a get_peers response"),
    }

    let bad_nodes = decode(b"d1:rd2:id20:dddddddddddddddddddd5:nodes3:abce1:t2:xx1:y1:re").unwrap();
    match MessageType::new(dict_of(&bad_nodes)) {
        Err(DhtError::InvalidNodesLength { trans_id, len }) => {
            assert_eq!(trans_id, bytes_of("xx"));
            assert_eq!(len, 3);
        }
        _ => panic!("expected invalid nodes length"),
    }
}

#[test]
fn validate_node_id_length() {
    let v = ResponseValidate::new(b"t1");
    assert_eq!(v.validate_node_id(&[9u8; 20]).unwrap(), [9u8; 20]);
    match v.validate_node_id(&[9u8; 19]) {
        Err(DhtError::InvalidNodeIdLength { trans_id, len }) => {
            assert_eq!(trans_id, bytes_of("t1"));
            assert_eq!(len, 19);
        }
        _ => panic!("expected invalid node id length"),
    }
    assert!(CompactNodeInfo::new(&[0u8; 52]).is_some());
    assert!(CompactNodeInfo::new(&[0u8; 27]).is_none());
}

#[test]
fn xor_distance_and_order() {
    let a = [0u8; 20];
    let mut b = [0u8; 20];
    b[0] = 0x80;
    b[19] = 1;
    let d = distance(&a, &b);
    assert_eq!(d, b);
    let mut c = [0u8; 20];
    c[1] = 0xff;
    assert!(distance_lt(&c, &b));
    assert!(!distance_lt(&b, &c));
    assert!(!distance_lt(&b, &b));
}

#[test]
fn flip_bits() {
    let id = [0u8; 20];
    assert_eq!(flip_id_bit_at_index(id, 0)[0], 0x80);
    assert_eq!(flip_id_bit_at_index(id, 7)[0], 0x01);
    assert_eq!(flip_id_bit_at_index(id, 159)[19], 0x01);
    assert_eq!(flip_id_bit_at_index(flip_id_bit_at_index(id, 42), 42), id);
}

fn handle(first: u8, port: u16) -> NodeHandle {
    let mut id = [0u8; 20];
    id[0] = first;
    NodeHandle { id, ip: 0x7f000001, port }
}

#[test]
fn insert_sorted_keeps_order_and_skips_duplicates() {
    let target = [0u8; 20];
    let mut nodes = Vec::new();
    insert_sorted_node(&mut nodes, &target, handle(5, 1), false);
    insert_sorted_node(&mut nodes, &target, handle(1, 2), false);
    insert_sorted_node(&mut nodes, &target, handle(9, 3), true);
    insert_sorted_node(&mut nodes, &target, handle(1, 2), false);
    let firsts: Vec<u8> = nodes.iter().map(|n| n.1.id[0]).collect();
    assert_eq!(firsts, vec![1, 5, 9]);
    assert!(nodes[2].2);

    let picks = pick_initial_nodes(&mut nodes);
    assert_eq!(picks.len(), 4);
    assert!(picks[0].1 && picks[1].1 && picks[2].1 && !picks[3].1);
    assert_eq!(picks[0].0.id[0], 1);
    assert!(nodes.iter().all(|n| n.2));
}

#[test]
fn pick_closest_fills_first_farther_slot() {
    let target = [0u8; 20];
    let nodes = vec![handle(8, 1), handle(4, 2), handle(6, 3), handle(2, 4)];
    let picks = pick_iterate_nodes(&nodes, &target);
    assert_eq!(picks.len(), 3);
    assert!(picks[0].1 && picks[1].1 && !picks[2].1);
    assert_eq!(picks[0].0.id[0], 2);
    assert_eq!(picks[1].0.id[0], 6);
}

#[test]
fn filter_keeps_unrequested_in_order() {
    let nodes = vec![handle(1, 1), handle(2, 2), handle(3, 3)];
    let requested = vec![handle(2, 2)];
    let fresh = filter_unrequested(&nodes, &requested);
    assert_eq!(fresh.len(), 2);
    assert_eq!(fresh[0].id[0], 1);
    assert_eq!(fresh[1].id[0], 3);
}

#[test]
fn table_lookup_start_and_absorb() {
    let target = [0u8; 20];
    let good = vec![handle(0x40, 1), handle(0x20, 2), handle(0x10, 3)];
    let (mut lookup, requests) = TableLookup::new([1u8; 20], target, SequentialIds::start_at(100), false, &good).unwrap();
    assert_eq!(lookup.info_hash(), target);
    assert_eq!(lookup.current_lookup_status(), LookupStatus::Searching);
    assert_eq!(requests.len(), 3);
    assert_eq!(requests[0].0, 100);
    assert_eq!(requests[0].1.id[0], 0x10);
    assert_eq!(requests[2].0, 102);
    assert_eq!(requests[2].1.id[0], 0x40);

    let beat = distance(&target, &handle(0x10, 3).id);
    let closer = vec![handle(0x01, 9), handle(0x80, 8)];
    let (next, new_beat) = lookup.absorb_nodes(&beat, &closer);
    let next = next.unwrap();
    assert_eq!(new_beat, distance(&target, &handle(0x01, 9).id));
    assert!(next.iter().any(|p| p.1 && p.0.id[0] == 0x01));

    let farther = vec![handle(0xf0, 7)];
    let (none, same) = lookup.absorb_nodes(&new_beat, &farther);
    assert!(none.is_none());
    assert_eq!(same, new_beat);
}

#[test]
fn table_lookup_without_nodes() {
    assert!(TableLookup::new([1u8; 20], [0u8; 20], SequentialIds::new(), true, &vec![]).is_none());
}

#[test]
fn table_lookup_rounds_to_completion() {
    let target = [0u8; 20];
    let good = vec![handle(0x40, 1), handle(0x20, 2)];
    let (mut lookup, requests) = TableLookup::new([1u8; 20], target, SequentialIds::new(), true, &good).unwrap();
    assert_eq!(requests.len(), 2);
    let (first_id, first_node) = requests[0];
    let (second_id, _) = requests[1];

    let unknown = lookup.recv_response(999, first_node, None, LookupInfo::Nodes(vec![]));
    assert!(unknown.requests.is_empty() && !unknown.cancel_timeout);

    let step = lookup.recv_response(
        first_id,
        first_node,
        Some(b"tok".to_vec()),
        LookupInfo::Both(vec![handle(0x01, 9)], vec![(0x7f000001, 6881)]),
    );
    assert!(step.cancel_timeout);
    assert_eq!(step.peers, vec![(0x7f000001, 6881)]);
    assert_eq!(step.requests.len(), 1);
    assert_eq!(step.requests[0].1.id[0], 0x01);
    assert_eq!(step.status, LookupStatus::Searching);
    let third_id = step.requests[0].0;

    let step = lookup.recv_timeout(second_id);
    assert!(step.requests.is_empty() && step.endgame_timeout.is_none());
    let step = lookup.recv_timeout(third_id);
    assert!(step.endgame_timeout.is_some());
    assert!(step.requests.is_empty());
    assert_eq!(step.status, LookupStatus::Searching);

    let announces = lookup.recv_finished(Some(6881));
    assert_eq!(announces.len(), 1);
    assert_eq!(announces[0].1.id[0], 0x20);
    assert_eq!(announces[0].2, b"tok".to_vec());
    assert!(lookup.recv_finished(None).is_empty());
}

#[test]
fn table_refresh_rounds() {
    let table_id = [0u8; 20];
    let mut refresh = TableRefresh::new();
    let (bucket, target) = refresh.begin_round(&table_id);
    assert_eq!(bucket, 0);
    assert_eq!(target[0], 0x80);
    assert_eq!(refresh.end_round(), 3000);
    let (bucket, target) = refresh.begin_round(&table_id);
    assert_eq!(bucket, 1);
    assert_eq!(target[0], 0x40);
    refresh.record_sent();
    assert_eq!(refresh.end_round(), 6000);
}

#[test]
fn table_refresh_wraps_after_last_bucket() {
    let table_id = [0u8; 20];
    let mut refresh = TableRefresh::new();
    for expected in 0..160usize {
        let (bucket, _) = refresh.begin_round(&table_id);
        assert_eq!(bucket, expected);
        refresh.end_round();
    }
    let (bucket, target) = refresh.begin_round(&table_id);
    assert_eq!(bucket, 0);
    assert_eq!(target[0], 0x80);
}

#[test]
fn bootstrap_decisions() {
    assert!(nood_to_less(10));
    assert!(!nood_to_less(11));
    assert_eq!(rebootstrap_decision(0, 0), RebootstrapDecision::Retry(1));
    assert_eq!(rebootstrap_decision(2, 0), RebootstrapDecision::GiveUp);
    assert_eq!(rebootstrap_decision(2, 5), RebootstrapDecision::Done);
    assert_eq!(after_bootstrap_step(BootstrapStatus::Bootstrapping, 0), BootstrapNext::Continue);
    assert_eq!(after_bootstrap_step(BootstrapStatus::Completed, 3), BootstrapNext::Rebootstrap);
    assert_eq!(after_bootstrap_step(BootstrapStatus::Completed, 30), BootstrapNext::Complete);
    assert!(matches!(after_bootstrap_step(BootstrapStatus::Failed, 30), BootstrapNext::Shutdown(_)));
    assert_eq!(current_bootstrap_status(true, true), BootstrapStatus::Completed);
}

#[test]
fn lookup_decisions() {
    let h = [4u8; 20];
    assert!(matches!(
        after_lookup_step(LookupStatus::Completed, h),
        LookupNext::Event(DhtEvent::LookupCompleted(x)) if x == h
    ));
    assert!(matches!(after_lookup_step(LookupStatus::Searching, h), LookupNext::Nothing));
    assert!(matches!(after_lookup_step(LookupStatus::Failed, h), LookupNext::Shutdown(_)));
    assert!(matches!(
        after_lookup_step(LookupStatus::AnnounceFailed, h),
        LookupNext::EventThenShutdown(DhtEvent::LookupAnFail(x), _) if x == h
    ));
}

#[test]
fn request_answers() {
    assert_eq!(compact_peer_bytes(0x01020304, 0x1ae1), vec![1, 2, 3, 4, 0x1a, 0xe1]);
    let values = contact_values(&vec![(0x7f000001, 6881)]);
    assert_eq!(values.len(), 1);
    match &values[0] {
        Bencode::Bytes(b) => assert_eq!(b, &vec![127, 0, 0, 1, 0x1a, 0xe1]),
        _ => panic!("expected bytes"),
    }
    assert_eq!(connect_port(5000, ConnectPort::Implied), 5000);
    assert_eq!(connect_port(5000, ConnectPort::Explicit(6881)), 6881);
    assert_eq!(announce_reply(false, true), AnnounceReply::InvalidToken);
    assert_eq!(announce_reply(true, true), AnnounceReply::Stored);
    assert_eq!(announce_reply(true, false), AnnounceReply::StorageFull);
    assert_eq!(ip_version_label(IpVersion::V6), "6");
    assert_eq!(IpVersion::V4.name(), "IPv4");
}

#[test]
fn read_only_drops_requests() {
    let root_value = decode(b"d1:q4:ping1:t2:ab1:y1:qe").unwrap();
    let msg = MessageType::new(dict_of(&root_value));
    assert!(!handle_incoming_preprocess(true, &msg));
    assert!(handle_incoming_preprocess(false, &msg));
}

#[test]
fn insert_sorted_node_never_duplicates_a_node() {
    let target = [0u8; 20];
    let mut nodes = Vec::new();
    // same id, two addresses: both at the same distance
    insert_sorted_node(&mut nodes, &target, handle(4, 1), false);
    insert_sorted_node(&mut nodes, &target, handle(4, 2), false);
    assert_eq!(nodes.len(), 2);
    assert_eq!(nodes[0].1.port, 2);
    insert_sorted_node(&mut nodes, &target, handle(4, 1), false);
    insert_sorted_node(&mut nodes, &target, handle(4, 2), true);
    assert_eq!(nodes.len(), 2);
    assert!(!nodes[0].2 && !nodes[1].2);
}
