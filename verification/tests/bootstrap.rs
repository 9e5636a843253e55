use btp::dht::bootstrap::{
    pick_flagged, pick_questionable, BootstrapProgress, BootstrapSource, TableBootstrap,
    BOOTSTRAP_INITIAL_TIMEOUT_MILLIS,
};
use btp::dht::lookup::NodeHandle;
use btp::dht::worker::{refresh_picks, BootstrapStatus};
use btp::trans::SequentialIds;

fn node(first: u8, port: u16) -> NodeHandle {
    let mut id = [0u8; 20];
    id[0] = first;
    NodeHandle { id, ip: 0x0a000001, port }
}

fn table_id() -> [u8; 20] {
    let mut id = [0u8; 20];
    id[19] = 7;
    id
}

fn fresh() -> TableBootstrap {
    TableBootstrap::new(
        table_id(),
        SequentialIds::new(),
        vec![(0x0a000002, 6881), (0x0a000003, 6882)],
        vec![(0x01020304, 6881), (0x05060708, 6881), (0x01020304, 6881)],
    )
}

#[test]
fn bootstrap_new_keeps_each_router_once() {
    let b = fresh();
    assert!(b.is_router(&(0x01020304, 6881)));
    assert!(b.is_router(&(0x05060708, 6881)));
    assert!(!b.is_router(&(0x0a000002, 6881)));
    assert!(!b.is_completed());
    assert!(b.active_messages_is_empty());
}

#[test]
fn bootstrap_start_asks_routers_then_nodes() {
    let mut b = fresh();
    let start = b.start_bootstrap();
    assert_eq!(start.trans_id, 0);
    assert_eq!(start.target, table_id());
    assert_eq!(start.timeout_millis, BOOTSTRAP_INITIAL_TIMEOUT_MILLIS);
    assert_eq!(start.timeout_millis, 2500);
    assert_eq!(start.status, BootstrapStatus::Bootstrapping);
    assert_eq!(
        start.addrs,
        vec![(0x01020304, 6881), (0x05060708, 6881), (0x0a000002, 6881), (0x0a000003, 6882)]
    );
    assert!(!b.active_messages_is_empty());
}

#[test]
fn bootstrap_initial_response_waits_for_its_timeout() {
    let mut b = fresh();
    let start = b.start_bootstrap();
    let p = b.recv_response(start.trans_id);
    assert_eq!(p, BootstrapProgress::Status(BootstrapStatus::Bootstrapping));
    assert!(!b.active_messages_is_empty());
    let p = b.recv_timeout(start.trans_id);
    assert_eq!(p, BootstrapProgress::NextBucket);
    assert!(b.active_messages_is_empty());
}

#[test]
fn bootstrap_unknown_transaction_changes_nothing() {
    let mut b = fresh();
    b.start_bootstrap();
    assert_eq!(b.recv_response(99), BootstrapProgress::Status(BootstrapStatus::Bootstrapping));
    assert_eq!(b.recv_timeout(99), BootstrapProgress::Status(BootstrapStatus::Bootstrapping));
    assert!(!b.active_messages_is_empty());
}

#[test]
fn bootstrap_first_buckets_use_closest_nodes() {
    let mut b = fresh();
    let start = b.start_bootstrap();
    b.recv_timeout(start.trans_id);
    let mut target = table_id();
    target[0] ^= 0x80;
    match b.bootstrap_next_bucket() {
        BootstrapSource::ClosestNodes { target: t } => assert_eq!(t, target),
        BootstrapSource::Buckets { .. } => panic!("expected the closest nodes"),
    }
}

#[test]
fn bootstrap_round_asks_at_most_eight_questionable_nodes() {
    let mut b = fresh();
    let start = b.start_bootstrap();
    b.recv_timeout(start.trans_id);
    let mut cands = Vec::new();
    for k in 0..12u8 {
        cands.push((node(k, 1000 + k as u16), k % 4 != 3));
    }
    let round = b.send_bootstrap_requests(&cands);
    let mut target = table_id();
    target[0] ^= 0x80;
    assert_eq!(round.target, target);
    assert_eq!(round.requests.len(), 8);
    let ports: Vec<u16> = round.requests.iter().map(|r| r.1.port).collect();
    assert_eq!(ports, vec![1000, 1001, 1002, 1004, 1005, 1006, 1008, 1009]);
    let ids: Vec<u64> = round.requests.iter().map(|r| r.0).collect();
    assert_eq!(ids, vec![1, 2, 3, 4, 5, 6, 7, 8]);
    assert_eq!(round.progress, BootstrapProgress::Status(BootstrapStatus::Bootstrapping));
    // every answer but the last keeps the round going
    for id in 1..8u64 {
        assert_eq!(b.recv_response(id), BootstrapProgress::Status(BootstrapStatus::Bootstrapping));
    }
    assert_eq!(b.recv_response(8), BootstrapProgress::NextBucket);
    // the second bucket flips the second bit
    let mut target2 = table_id();
    target2[0] ^= 0x40;
    match b.bootstrap_next_bucket() {
        BootstrapSource::ClosestNodes { target: t } => assert_eq!(t, target2),
        BootstrapSource::Buckets { .. } => panic!("expected the closest nodes"),
    }
}

#[test]
fn bootstrap_empty_round_goes_on_to_next_bucket() {
    let mut b = fresh();
    let start = b.start_bootstrap();
    b.recv_timeout(start.trans_id);
    let round = b.send_bootstrap_requests(&vec![(node(1, 1), false)]);
    assert!(round.requests.is_empty());
    assert_eq!(round.progress, BootstrapProgress::NextBucket);
    let round = b.send_bootstrap_requests(&Vec::new());
    assert_eq!(round.progress, BootstrapProgress::NextBucket);
    let mut target = table_id();
    target[0] ^= 0x20;
    match b.bootstrap_next_bucket() {
        BootstrapSource::Buckets { first, target: t } => {
            assert_eq!(first, 0);
            assert_eq!(t, target);
        }
        BootstrapSource::ClosestNodes { .. } => panic!("expected buckets"),
    }
}

#[test]
fn bootstrap_walk_completes_after_last_bucket() {
    let mut b = fresh();
    let start = b.start_bootstrap();
    assert_eq!(b.recv_timeout(start.trans_id), BootstrapProgress::NextBucket);
    let mut rounds = 0;
    loop {
        let round = b.send_bootstrap_requests(&Vec::new());
        rounds += 1;
        match round.progress {
            BootstrapProgress::NextBucket => continue,
            BootstrapProgress::Status(s) => {
                assert_eq!(s, BootstrapStatus::Completed);
                break;
            }
        }
    }
    assert_eq!(rounds, 160);
    assert!(b.is_completed());
    assert!(b.active_messages_is_empty());
}

#[test]
fn bootstrap_last_round_waits_for_its_answers() {
    let mut b = fresh();
    let start = b.start_bootstrap();
    b.recv_timeout(start.trans_id);
    for _ in 0..159 {
        b.send_bootstrap_requests(&Vec::new());
    }
    let round = b.send_bootstrap_requests(&vec![(node(3, 3), true), (node(4, 4), true)]);
    assert_eq!(round.progress, BootstrapProgress::Status(BootstrapStatus::Bootstrapping));
    assert!(b.is_completed());
    let first = round.requests[0].0;
    assert_eq!(b.recv_timeout(first), BootstrapProgress::Status(BootstrapStatus::Bootstrapping));
}

#[test]
fn bootstrap_picks_only_questionable() {
    let cands = vec![(node(1, 1), false), (node(2, 2), true), (node(3, 3), false), (node(4, 4), true)];
    let picks = pick_questionable(&cands);
    let ports: Vec<u16> = picks.iter().map(|n| n.port).collect();
    assert_eq!(ports, vec![2, 4]);
}

#[test]
fn bootstrap_restart_forgets_transactions() {
    let mut b = fresh();
    let s1 = b.start_bootstrap();
    let s2 = b.start_bootstrap();
    assert_eq!(s1.trans_id, 0);
    assert_eq!(s2.trans_id, 1);
    assert_eq!(b.recv_timeout(0), BootstrapProgress::Status(BootstrapStatus::Bootstrapping));
    assert_eq!(b.recv_timeout(1), BootstrapProgress::NextBucket);
}

#[test]
fn refresh_asks_at_most_four_flagged_nodes() {
    let cands: Vec<(NodeHandle, bool)> = (0..7u8).map(|k| (node(k, k as u16), k != 2)).collect();
    let picks = refresh_picks(&cands);
    let ports: Vec<u16> = picks.iter().map(|n| n.port).collect();
    assert_eq!(ports, vec![0, 1, 3, 4]);
    assert!(pick_flagged(&cands, 0).is_empty());
    assert_eq!(pick_flagged(&cands, 100).len(), 6);
}
