use btp::disk::checker_make::{file_size_action, FileSizeAction, PieceCheckerMake};
use btp::disk::context::{DiskManagerContext, FileInfo, Metainfo};
use btp::disk::piece_checker::{
    last_piece_size, piece_diff, piece_is_complete, PieceState, PieceStateChecker,
};
use btp::disk::BlockMetadata;
use btp::sha::sha1_bytes;

fn block(piece: u64, offset: u64, len: usize) -> BlockMetadata {
    BlockMetadata::new([0u8; 20], piece, offset, len)
}

#[test]
fn file_size_actions() {
    assert_eq!(file_size_action(10, 10), FileSizeAction::Keep);
    assert_eq!(file_size_action(10, 0), FileSizeAction::Allocate(9));
    assert_eq!(
        file_size_action(10, 4),
        FileSizeAction::Mismatch { expected_size: 10, actual_size: 4 }
    );
}

#[test]
fn last_piece_sizes() {
    assert_eq!(last_piece_size(16, &[10, 10]), 4);
    assert_eq!(last_piece_size(10, &[10, 10]), 0);
    assert_eq!(last_piece_size(7, &[]), 0);
}

#[test]
fn completeness_of_merged_blocks() {
    assert!(piece_is_complete(3, 5, 16, &[block(0, 0, 16)]));
    assert!(piece_is_complete(3, 5, 16, &[block(2, 0, 5)]));
    assert!(!piece_is_complete(3, 5, 16, &[block(1, 0, 5)]));
    assert!(!piece_is_complete(3, 5, 16, &[block(0, 0, 8), block(0, 8, 8)]));
    assert!(!piece_is_complete(3, 5, 16, &[]));
}

#[test]
fn checker_finds_whole_pieces_and_reports_diffs() {
    let mut checker = PieceStateChecker::new(2, 4);
    checker.add_pending_block(block(0, 8, 8));
    checker.add_pending_block(block(0, 0, 8));
    checker.add_pending_block(block(1, 0, 2));
    let ready = checker.begin_whole_piece_check(16);
    assert_eq!(ready, vec![block(0, 0, 16)]);

    let data = vec![1u8; 16];
    let good_hash = sha1_bytes(&data);
    assert_eq!(checker.finish_piece_check(&ready[0], &data, &good_hash), PieceState::Good(0));
    assert_eq!(checker.finish_piece_check(&block(1, 0, 4), &data, &[0u8; 20]), PieceState::Bad(1));

    let goods = checker.run_with_diff(|s| matches!(s, PieceState::Good(_)));
    assert_eq!(goods, vec![0]);
    assert!(checker.run_with_diff(|_| true).is_empty());

    checker.add_pending_block(block(1, 2, 2));
    checker.add_pending_block(block(1, 0, 2));
    let ready = checker.begin_whole_piece_check(16);
    assert_eq!(ready, vec![block(1, 0, 4)]);
    assert_eq!(PieceState::Bad(1).get_index(), 1);
}

fn metainfo(hash: u8) -> Metainfo {
    Metainfo {
        info_hash: [hash; 20],
        directory: None,
        piece_length: 16,
        pieces: vec![[0u8; 20], [1u8; 20]],
        files: vec![FileInfo { path: vec!["a".to_string()], length: 20 }],
    }
}

#[test]
fn init_state_from_metainfo() {
    let m = metainfo(1);
    let mut checker = PieceCheckerMake::init_state_checker(&m);
    checker.add_pending_block(block(1, 0, 4));
    assert_eq!(checker.begin_whole_piece_check(16), vec![block(1, 0, 4)]);
    let _ = PieceCheckerMake::with_state_checker(&m, PieceStateChecker::new(0, 0));
}

#[test]
fn context_holds_one_state_per_torrent() {
    let mut ctx: DiskManagerContext<u8> = DiskManagerContext::new(7);
    assert_eq!(*ctx.filesystem(), 7);
    assert!(ctx.insert_torrent(metainfo(1), PieceStateChecker::new(2, 4)));
    assert!(!ctx.insert_torrent(metainfo(1), PieceStateChecker::new(2, 4)));
    assert!(ctx.insert_torrent(metainfo(2), PieceStateChecker::new(2, 4)));
    let found = ctx.update_torrent_context([2u8; 20], |file: &Metainfo, state: &mut PieceStateChecker| {
        assert_eq!(file.piece_length, 16);
        state.add_pending_block(BlockMetadata::new([2u8; 20], 0, 0, 16));
    });
    assert!(found);
    assert!(ctx.use_torrent_context([2u8; 20], |file: &Metainfo, _state: &PieceStateChecker| {
        assert_eq!(file.info_hash(), [2u8; 20]);
    }));
    assert!(ctx.remove_torrent([1u8; 20]));
    assert!(!ctx.remove_torrent([1u8; 20]));
    assert!(!ctx.use_torrent_context([1u8; 20], |_f: &Metainfo, _s: &PieceStateChecker| {}));
}

#[test]
fn piece_diff_reports_bad_pieces_only_when_asked() {
    let data = vec![2u8; 16];
    let good_hash = sha1_bytes(&data);
    let mut checker = PieceStateChecker::new(3, 16);
    checker.finish_piece_check(&block(0, 0, 16), &data, &good_hash);
    checker.finish_piece_check(&block(1, 0, 16), &data, &[0u8; 20]);
    checker.finish_piece_check(&block(2, 0, 16), &data, &good_hash);
    assert_eq!(piece_diff(&mut checker, false), vec![0, 2]);
    assert!(piece_diff(&mut checker, true).is_empty());

    let mut checker = PieceStateChecker::new(3, 16);
    checker.finish_piece_check(&block(0, 0, 16), &data, &[0u8; 20]);
    checker.finish_piece_check(&block(1, 0, 16), &data, &good_hash);
    assert_eq!(piece_diff(&mut checker, true), vec![0, 1]);
}

#[test]
fn merge_covers_blocks_without_gaps() {
    let mut checker = PieceStateChecker::new(1, 12);
    checker.add_pending_block(block(0, 5, 7));
    checker.add_pending_block(block(0, 2, 1));
    checker.add_pending_block(block(0, 0, 10));
    let ready = checker.begin_whole_piece_check(16);
    assert_eq!(ready, vec![block(0, 0, 12)]);
}

#[test]
fn whole_pieces_read_back_are_checked_in_order() {
    let mut checker = PieceStateChecker::new(2, 16);
    checker.add_pending_block(block(0, 0, 16));
    checker.add_pending_block(block(1, 0, 8));
    checker.add_pending_block(block(1, 8, 8));
    let ready = checker.begin_whole_piece_check(16);
    assert_eq!(ready.len(), 2);
    let good = vec![3u8; 16];
    let hashes = vec![sha1_bytes(&good), [0u8; 20]];
    let data: Vec<Vec<u8>> = ready.iter().map(|_| good.clone()).collect();
    let states = checker.finish_piece_checks(&ready, &data, &hashes);
    let expected: Vec<PieceState> = ready
        .iter()
        .map(|b| if b.piece_index() == 0 { PieceState::Good(0) } else { PieceState::Bad(1) })
        .collect();
    assert_eq!(states, expected);
    assert!(checker.begin_whole_piece_check(16).is_empty());
    assert_eq!(piece_diff(&mut checker, true).len(), 2);
}
