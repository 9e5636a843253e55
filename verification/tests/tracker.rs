use btp::dht::decode::decode;
use btp::tracker::{
    announce_urls, collect_peers, http_announce_url,
    announce_param, announce_with_key, check_connect_response, classify_announce,
    encode_query_params, parse_announce_response, peers_from_compact, udp_host, Ipv4Addr, Peer,
    TrackerKind, TrackerResponse, TrackerResponseError, UdpTrackerError, Ws,
};

#[test]
fn peer_from_compact_bytes() {
    let p = Peer::from_bytes(&[10, 0, 0, 2, 0x1a, 0xe1]);
    assert_eq!(p, Peer { ip: Ipv4Addr(10, 0, 0, 2), port: 6881 });
    let d = Peer::defalut();
    assert_eq!(d.ip, Ipv4Addr(127, 0, 0, 1));
    assert_eq!(d.port, 6881);
}

#[test]
fn peer_list_ignores_trailing_bytes() {
    let list = Peer::list_from_bytes(&[1, 2, 3, 4, 0, 80, 5, 6, 7, 8, 1, 0, 9]);
    assert_eq!(list.len(), 2);
    assert_eq!(list[1], Peer { ip: Ipv4Addr(5, 6, 7, 8), port: 256 });
    assert!(Peer::list_from_bytes(&[1, 2, 3]).is_empty());
}

#[test]
fn compact_peers_with_local_placeholder_are_bad() {
    let (peers, bad) = peers_from_compact(&[1, 2, 3, 4, 0, 80, 127, 0, 0, 1, 0, 80]);
    assert!(bad);
    assert!(peers.is_empty());
    let (peers, bad) = peers_from_compact(&[127, 0, 0, 1, 0, 80, 1, 2, 3, 4, 0, 80]);
    assert!(!bad);
    assert_eq!(peers.len(), 2);
}

#[test]
fn tracker_response_from_bencode() {
    let body = b"d8:completei5e10:incompletei7e8:intervali1800e12:min intervali60e5:peers6:\x01\x02\x03\x04\x1a\xe1e";
    let t = TrackerResponse::parse(body).unwrap();
    assert_eq!(t.interval, 1800);
    assert_eq!(t.min_interval, Some(60));
    assert_eq!(t.complete, Some(5));
    assert_eq!(t.incomplete, Some(7));
    assert_eq!(t.is_bad, Some(false));
    assert_eq!(t.peers, Some(vec![Peer { ip: Ipv4Addr(1, 2, 3, 4), port: 6881 }]));

    let missing_interval = decode(b"d5:peers6:\x01\x02\x03\x04\x1a\xe1e").unwrap();
    assert!(TrackerResponse::from_bencode(&missing_interval).is_err());
    assert_eq!(TrackerResponse::parse(b"i1e"), Err(TrackerResponseError::SelfError));
    assert_eq!(TrackerResponse::parse(b"d8:intervali1e5:peers4:abcde"), Err(TrackerResponseError::SelfError));
}

#[test]
fn tracker_response_defaults() {
    let t = TrackerResponse::default();
    assert_eq!(t.interval, 1);
    assert_eq!(t.complete, Some(3));
    assert_eq!(t.incomplete, Some(4));
    assert_eq!(t.peers, Some(vec![]));
    let one = TrackerResponse::new(&[9, 9, 9, 9, 0, 1]);
    assert_eq!(one.peers, Some(vec![Peer { ip: Ipv4Addr(9, 9, 9, 9), port: 1 }]));
}

#[test]
fn connect_request_bytes() {
    let ws = Ws::with_transaction_id(0x01020304);
    assert_eq!(
        ws.get_param(),
        vec![0x00, 0x00, 0x04, 0x17, 0x27, 0x10, 0x19, 0x80, 0, 0, 0, 0, 4, 3, 2, 1]
    );
    let random = Ws::new();
    let t = u32::from_le_bytes(random.conenct_id);
    assert!((100000..300000).contains(&t));
}

#[test]
fn connect_response_checks() {
    let ws = Ws::with_transaction_id(7);
    assert_eq!(check_connect_response(&ws, &[0; 10]), Err(UdpTrackerError::HandshakeLength));
    let mut reply = vec![0, 0, 0, 1, 7, 0, 0, 0, 9, 9, 9, 9, 8, 8, 8, 8];
    assert_eq!(check_connect_response(&ws, &reply), Err(UdpTrackerError::HandshakeAction));
    reply[3] = 0;
    reply[4] = 6;
    assert_eq!(check_connect_response(&ws, &reply), Err(UdpTrackerError::HandshakeId));
    reply[4] = 7;
    assert_eq!(check_connect_response(&ws, &reply), Ok(vec![9, 9, 9, 9, 8, 8, 8, 8]));
}

#[test]
fn announce_request_layout() {
    let server_id = [0xaau8; 8];
    let info_hash = [0x11u8; 20];
    let peer_id = [0x22u8; 20];
    let ip = [192, 168, 0, 1];
    let req = announce_with_key(5, &server_id, &ip, 0x1ae1, &info_hash, &peer_id, 1000, 0x0a0b0c0d);
    assert_eq!(req.len(), 8 + 4 + 4 + 20 + 20 + 32 + 4 + 4 + 4 + 4 + 2 + 9);
    assert_eq!(&req[0..8], &server_id);
    assert_eq!(&req[8..12], &[0, 0, 0, 1]);
    assert_eq!(&req[12..16], &[5, 0, 0, 0]);
    assert_eq!(&req[56..64], &[0; 8]);
    assert_eq!(&req[64..72], &1000u64.to_le_bytes());
    assert_eq!(&req[80..88], &2u64.to_le_bytes());
    assert_eq!(&req[88..92], &ip);
    assert_eq!(&req[92..96], &[0x0d, 0x0c, 0x0b, 0x0a]);
    assert_eq!(&req[104..106], &[0xe1, 0x1a]);
    assert_eq!(&req[106..], b"/announce");
    let random_key = announce_param(5, &server_id, &ip, 0x1ae1, &info_hash, &peer_id, 1000);
    assert_eq!(random_key.len(), req.len());
    assert_eq!(&random_key[..92], &req[..92]);
}

#[test]
fn announce_response_checks() {
    assert!(matches!(parse_announce_response(&[0; 10], 1), Err(UdpTrackerError::AnnounceLength)));
    let mut data = vec![0, 0, 0, 0, 1, 0, 0, 0];
    data.extend_from_slice(&[0; 12]);
    assert!(matches!(parse_announce_response(&data, 1), Err(UdpTrackerError::AnnounceAction)));
    data[3] = 1;
    assert!(matches!(parse_announce_response(&data, 2), Err(UdpTrackerError::AnnounceId)));
    data.extend_from_slice(&[8, 8, 4, 4, 0, 53]);
    let t = parse_announce_response(&data, 1).unwrap();
    assert_eq!(t.peers, Some(vec![Peer { ip: Ipv4Addr(8, 8, 4, 4), port: 53 }]));
    assert_eq!(t.interval, 1);
}

#[test]
fn announce_url_kinds() {
    assert_eq!(classify_announce(b"udp://tracker:80/announce"), TrackerKind::Udp);
    assert_eq!(classify_announce(b"https://tracker/announce"), TrackerKind::Http);
    assert_eq!(classify_announce(b"wss://tracker"), TrackerKind::Other);
    assert_eq!(udp_host(b"udp://tracker.example:6969/announce"), b"tracker.example:6969".to_vec());
    assert_eq!(udp_host(b"host:1"), b"host:1".to_vec());
}

#[test]
fn query_string_encoding() {
    let params = vec![
        (b"port".to_vec(), b"6881".to_vec()),
        (b"left".to_vec(), b"0".to_vec()),
        (b"compact".to_vec(), b"1".to_vec()),
    ];
    assert_eq!(encode_query_params(&params), b"port=6881&left=0&compact=1".to_vec());
    assert_eq!(encode_query_params(&vec![]), Vec::<u8>::new());
}

#[test]
fn http_announce_link() {
    let url = http_announce_url("http://t.example/announce", "%AB%CD", "-btX001-abcdefghijkl", 6881, 40000);
    assert_eq!(
        String::from_utf8(url).unwrap(),
        "http://t.example/announce?info_hash=%AB%CD&peer_id=-btX001-abcdefghijkl&port=6881&uploaded=0&downloaded=0&left=40000&event=started&numwant=200&compact=1"
    );
}

#[test]
fn announce_url_per_tier() {
    let list = Some(vec![
        vec!["udp://a/announce".to_string(), "udp://b/announce".to_string()],
        vec!["http://c/announce".to_string()],
    ]);
    assert_eq!(announce_urls(&None, &list), vec!["udp://b/announce".to_string(), "http://c/announce".to_string()]);
    assert_eq!(announce_urls(&Some("http://d".to_string()), &None), vec!["http://d".to_string()]);
}

#[test]
fn peers_of_all_responses() {
    let mut a = TrackerResponse::default();
    a.peers = Some(vec![Peer { ip: Ipv4Addr(1, 1, 1, 1), port: 1 }]);
    let mut b = TrackerResponse::default();
    b.peers = Some(vec![Peer { ip: Ipv4Addr(2, 2, 2, 2), port: 2 }, Peer { ip: Ipv4Addr(3, 3, 3, 3), port: 3 }]);
    let peers = collect_peers(&vec![a, TrackerResponse::default(), b]);
    assert_eq!(peers.len(), 3);
    assert_eq!(peers[2].port, 3);
}
