use btp::utracker::{
    calculate_message_timeout_millis, is_expired, next_request_step, now_millis, AnnounceEvent,
    ClientRequest, ConnectIdCache, ConnectTimer, PeerAddr, RequestKind, RequestStep, ServerReply,
    TrackerSwarms, ANNOUNCE_INTERVAL, CONNECT_ID_PROTOCOL_ID, ip_versions_match, response_outcome,
    ResponseKind, ResponseOutcome, ServerRequest, ClientAction, ClientDispatcher, ClientError,
};

#[test]
fn message_timeouts_double() {
    assert_eq!(calculate_message_timeout_millis(0), 15000);
    assert_eq!(calculate_message_timeout_millis(1), 30000);
    assert_eq!(calculate_message_timeout_millis(8), 3840000);
}

#[test]
fn expiry_after_a_minute() {
    assert!(!is_expired(59999, 0));
    assert!(is_expired(60000, 0));
    assert!(is_expired(i64::MAX, i64::MIN));
    assert!(!is_expired(i64::MIN, i64::MAX));
    assert!(now_millis() > 0);
}

#[test]
fn timer_runs_out_after_eight_timeouts() {
    let mut timer = ConnectTimer::new(PeerAddr::V4(1, 2), ClientRequest::Announce([0; 20]));
    assert_eq!(timer.current_timeout(false), Some(15000));
    for attempt in 1..=8u32 {
        assert_eq!(timer.current_timeout(true), Some(15000 * (1u64 << attempt)));
    }
    assert_eq!(timer.current_timeout(true), None);
    assert_eq!(timer.timeout_id(), None);
    timer.set_timeout_id(9);
    assert_eq!(timer.timeout_id(), Some(9));
    assert_eq!(timer.message_params().0, PeerAddr::V4(1, 2));
}

#[test]
fn request_steps() {
    let mut timer = ConnectTimer::new(PeerAddr::V4(1, 2), ClientRequest::Scrape([0; 20]));
    assert_eq!(
        next_request_step(&mut timer, false, None),
        RequestStep::Send { conn_id: CONNECT_ID_PROTOCOL_ID, kind: RequestKind::Connect, timeout: 15000 }
    );
    assert_eq!(
        next_request_step(&mut timer, true, Some(77)),
        RequestStep::Send { conn_id: 77, kind: RequestKind::Scrape, timeout: 30000 }
    );
    for _ in 0..7 {
        next_request_step(&mut timer, true, Some(77));
    }
    assert_eq!(next_request_step(&mut timer, true, Some(77)), RequestStep::MaxTimeout);
}

#[test]
fn connection_id_cache() {
    let mut cache = ConnectIdCache::new();
    let a = PeerAddr::V4(0x7f000001, 80);
    let b = PeerAddr::V6(1, 80);
    assert_eq!(cache.get_at(a, 0), None);
    cache.put_at(a, 11, 1000);
    cache.put_at(b, 22, 50000);
    assert_eq!(cache.get_at(a, 2000), Some(11));
    cache.put_at(a, 12, 3000);
    assert_eq!(cache.get_at(a, 4000), Some(12));
    cache.clean_expired_at(70000);
    assert_eq!(cache.get_at(a, 4000), None);
    assert_eq!(cache.get_at(b, 60000), Some(22));
    assert_eq!(cache.get_at(b, 110000), None);
    assert_eq!(cache.get_at(b, 60000), None);
    cache.put(a, 5);
    assert_eq!(cache.get(a), Some(5));
    cache.clean_expired();
}

#[test]
fn swarm_announce_and_scrape() {
    let mut server = TrackerSwarms::new();
    let hash = [3u8; 20];
    let other = [4u8; 20];
    assert!(matches!(
        server.forward_announce(1, &hash, 6881, AnnounceEvent::Started, true, PeerAddr::V4(1, 5)),
        ServerReply::InvalidConnectionId
    ));
    let cid = match server.forward_connect() {
        ServerReply::Connect(c) => c,
        _ => panic!("expected a connect reply"),
    };
    match server.forward_announce(cid, &hash, 6881, AnnounceEvent::Started, true, PeerAddr::V4(1, 5)) {
        ServerReply::Announce { interval, leechers, seeders, peers } => {
            assert_eq!(interval, ANNOUNCE_INTERVAL);
            assert_eq!((leechers, seeders), (1, 1));
            assert_eq!(peers, vec![PeerAddr::V4(1, 6881)]);
        }
        _ => panic!("expected an announce reply"),
    }
    server.forward_announce(cid, &hash, 7000, AnnounceEvent::Update, true, PeerAddr::V6(9, 5));
    match server.forward_announce(cid, &hash, 6882, AnnounceEvent::Update, true, PeerAddr::V4(2, 5)) {
        ServerReply::Announce { leechers, peers, .. } => {
            assert_eq!(leechers, 3);
            assert_eq!(peers.len(), 2);
            assert!(peers.iter().all(|p| matches!(p, PeerAddr::V4(..))));
        }
        _ => panic!("expected an announce reply"),
    }
    match server.forward_scrape(cid, &vec![hash, other]) {
        ServerReply::Scrape(stats) => assert_eq!(stats, vec![(3, 0, 3), (0, 0, 0)]),
        _ => panic!("expected a scrape reply"),
    }
    match server.forward_announce(cid, &hash, 6881, AnnounceEvent::Stopped, true, PeerAddr::V4(1, 5)) {
        ServerReply::Announce { leechers, .. } => assert_eq!(leechers, 2),
        _ => panic!("expected an announce reply"),
    }
    assert!(matches!(server.forward_scrape(cid.wrapping_add(1), &vec![hash]), ServerReply::InvalidConnectionId));
}

#[test]
fn server_dispatches_requests() {
    let mut server = TrackerSwarms::new();
    let hash = [5u8; 20];
    assert!(server.process_request(7, ServerRequest::Connect, PeerAddr::V4(1, 1)).is_none());
    let cid = match server.process_request(CONNECT_ID_PROTOCOL_ID, ServerRequest::Connect, PeerAddr::V4(1, 1)) {
        Some(ServerReply::Connect(c)) => c,
        _ => panic!("expected a connect reply"),
    };
    let announce = ServerRequest::Announce { info_hash: hash, port: 9000, event: AnnounceEvent::Started, source_v4: true };
    match server.process_request(cid, announce, PeerAddr::V4(8, 1)) {
        Some(ServerReply::Announce { peers, leechers, .. }) => {
            assert_eq!(peers, vec![PeerAddr::V4(8, 9000)]);
            assert_eq!(leechers, 1);
        }
        _ => panic!("expected an announce reply"),
    }
    match server.process_request(cid, ServerRequest::Scrape(vec![hash]), PeerAddr::V4(8, 1)) {
        Some(ServerReply::Scrape(stats)) => assert_eq!(stats, vec![(1, 0, 1)]),
        _ => panic!("expected a scrape reply"),
    }
    let announce = ServerRequest::Announce { info_hash: hash, port: 9000, event: AnnounceEvent::Started, source_v4: true };
    assert!(matches!(
        server.process_request(cid.wrapping_add(1), announce, PeerAddr::V4(8, 1)),
        Some(ServerReply::InvalidConnectionId)
    ));
}

#[test]
fn client_matches_responses() {
    let tracker = PeerAddr::V4(0x01020304, 6969);
    let announce = ConnectTimer::new(tracker, ClientRequest::Announce([1u8; 20]));
    let scrape = ConnectTimer::new(tracker, ClientRequest::Scrape([1u8; 20]));
    assert_eq!(response_outcome(&announce, PeerAddr::V4(0x01020305, 6969), ResponseKind::Announce), ResponseOutcome::Dropped);
    assert_eq!(response_outcome(&announce, tracker, ResponseKind::Connect(77)), ResponseOutcome::CacheAndResend(77));
    assert_eq!(response_outcome(&announce, tracker, ResponseKind::Announce), ResponseOutcome::Announced);
    assert_eq!(response_outcome(&announce, tracker, ResponseKind::Scrape), ResponseOutcome::ServerError);
    assert_eq!(response_outcome(&scrape, tracker, ResponseKind::Scrape), ResponseOutcome::Scraped);
    assert_eq!(response_outcome(&scrape, tracker, ResponseKind::Announce), ResponseOutcome::ServerError);
    assert_eq!(response_outcome(&scrape, tracker, ResponseKind::Error), ResponseOutcome::ServerMessage);
}

#[test]
fn ip_families_must_match() {
    assert!(ip_versions_match(PeerAddr::V4(0, 0), PeerAddr::V4(1, 2)));
    assert!(ip_versions_match(PeerAddr::V6(0, 0), PeerAddr::V6(1, 2)));
    assert!(!ip_versions_match(PeerAddr::V4(0, 0), PeerAddr::V6(1, 2)));
    assert!(!ip_versions_match(PeerAddr::V6(0, 0), PeerAddr::V4(1, 2)));
}

#[test]
fn client_dispatcher_connects_then_announces() {
    let tracker = PeerAddr::V4(0x01020304, 6969);
    let mut d = ClientDispatcher::new(PeerAddr::V4(0, 6881));
    assert_eq!(
        d.send_request(PeerAddr::V6(1, 6969), 1, ClientRequest::Announce([1u8; 20]), 0),
        ClientAction::Finish { token: 1, result: Err(ClientError::IPVersionMismatch) }
    );
    assert_eq!(
        d.send_request(tracker, 7, ClientRequest::Announce([1u8; 20]), 1000),
        ClientAction::Send { token: 7, addr: tracker, conn_id: CONNECT_ID_PROTOCOL_ID, kind: RequestKind::Connect, timeout: 15000 }
    );
    // a response from elsewhere drops the request
    let mut other = ClientDispatcher::new(PeerAddr::V4(0, 6881));
    other.send_request(tracker, 8, ClientRequest::Scrape([1u8; 20]), 0);
    assert_eq!(other.recv_response(PeerAddr::V4(9, 9), 8, ResponseKind::Scrape, 0), (false, ClientAction::Nothing));
    assert_eq!(other.process_request(8, true, 0), ClientAction::Nothing);
    // the connection id comes back: the announce itself goes out
    assert_eq!(
        d.recv_response(tracker, 7, ResponseKind::Connect(55), 2000),
        (true, ClientAction::Send { token: 7, addr: tracker, conn_id: 55, kind: RequestKind::Announce, timeout: 15000 })
    );
    // a timeout sends it again with a doubled timeout
    assert_eq!(
        d.process_request(7, true, 3000),
        ClientAction::Send { token: 7, addr: tracker, conn_id: 55, kind: RequestKind::Announce, timeout: 30000 }
    );
    assert_eq!(
        d.recv_response(tracker, 7, ResponseKind::Announce, 4000),
        (true, ClientAction::Finish { token: 7, result: Ok(RequestKind::Announce) })
    );
    assert_eq!(d.recv_response(tracker, 7, ResponseKind::Announce, 4000), (false, ClientAction::Nothing));
}

#[test]
fn client_dispatcher_gives_up_and_shuts_down() {
    let tracker = PeerAddr::V4(5, 80);
    let mut d = ClientDispatcher::new(PeerAddr::V4(0, 6881));
    d.send_request(tracker, 3, ClientRequest::Scrape([2u8; 20]), 0);
    for _ in 0..8 {
        assert!(matches!(d.process_request(3, true, 0), ClientAction::Send { .. }));
    }
    assert_eq!(d.process_request(3, true, 0), ClientAction::Finish { token: 3, result: Err(ClientError::MaxTimeout) });
    d.send_request(tracker, 4, ClientRequest::Scrape([2u8; 20]), 0);
    d.send_request(tracker, 5, ClientRequest::Announce([2u8; 20]), 0);
    assert!(d.is_running());
    assert_eq!(d.shutdown(), vec![4, 5]);
    assert!(!d.is_running());
    assert_eq!(d.process_request(4, false, 0), ClientAction::Nothing);
    // an expired connection id is asked for again
    let mut e = ClientDispatcher::new(PeerAddr::V4(0, 6881));
    e.send_request(tracker, 9, ClientRequest::Scrape([2u8; 20]), 0);
    e.recv_response(tracker, 9, ResponseKind::Connect(1), 0);
    assert!(matches!(
        e.process_request(9, true, 60000),
        ClientAction::Send { conn_id: CONNECT_ID_PROTOCOL_ID, kind: RequestKind::Connect, .. }
    ));
}
