use btrs::download::{BlockOutcome, BlockRequest, DownloadState, PieceInProgress, PieceInfo, pieces_of};

#[test]
fn write_block_copies_when_it_fits() {
    let mut p = PieceInProgress::new(PieceInfo { index: 0, len: 6 });
    assert!(p.write_block(2, &[1, 2, 3]));
    assert_eq!(vec![0, 0, 1, 2, 3, 0], p.buf);
    assert!(!p.write_block(4, &[9, 9, 9]));
    assert!(!p.write_block(7, &[]));
    assert!(p.write_block(6, &[]));
    assert_eq!(vec![0, 0, 1, 2, 3, 0], p.buf);
}

#[test]
fn new_state() {
    let s = DownloadState::new();
    assert_eq!(0, s.backlog);
    assert_eq!(5, s.max_requests);
    assert!(s.is_done());
    assert!(s.needs_piece());
}

#[test]
fn fill_backlog_requests_blocks_up_to_the_limit() {
    let mut s = DownloadState::new();
    s.pick_pieces(PieceInfo { index: 3, len: 0x4000 * 2 + 10 });
    assert_eq!(1, s.pieces_len());
    let reqs = s.fill_backlog(false, 0);
    assert_eq!(
        vec![
            BlockRequest { index: 3, begin: 0, len: 0x4000 },
            BlockRequest { index: 3, begin: 0x4000, len: 0x4000 },
            BlockRequest { index: 3, begin: 0x8000, len: 10 },
        ],
        reqs
    );
    assert_eq!(3, s.backlog);
    assert_eq!(3, s.last_requested_blocks);
    // At MIN_REQUESTS in flight nothing more is asked.
    assert!(s.fill_backlog(false, 10).is_empty());
}

#[test]
fn choked_requests_nothing() {
    let mut s = DownloadState::new();
    s.pick_pieces(PieceInfo { index: 0, len: 100 });
    assert!(s.fill_backlog(true, 5).is_empty());
    assert_eq!(0, s.backlog);
}

#[test]
fn max_requests_bounds_the_backlog() {
    let mut s = DownloadState::new();
    s.pick_pieces(PieceInfo { index: 0, len: 0x4000 * 4 });
    s.pick_pieces(PieceInfo { index: 1, len: 0x4000 * 4 });
    let reqs = s.fill_backlog(false, 0);
    assert_eq!(5, reqs.len());
    assert_eq!(5, s.backlog);
    assert!(!s.needs_piece());
}

#[test]
fn blocks_complete_a_piece() {
    let mut s = DownloadState::new();
    s.pick_pieces(PieceInfo { index: 2, len: 0x4002 });
    let reqs = s.fill_backlog(false, 0);
    assert_eq!(
        vec![BlockRequest { index: 2, begin: 0, len: 0x4000 }, BlockRequest { index: 2, begin: 0x4000, len: 2 }],
        reqs
    );
    assert!(matches!(s.handle_block(9, 0, &[1]), BlockOutcome::NotRequested));
    assert!(matches!(s.handle_block(2, 0, &vec![1; 0x4000]), BlockOutcome::Pending { written: true }));
    assert_eq!(1, s.backlog);
    assert!(matches!(s.handle_block(2, 0x4001, &[7, 7]), BlockOutcome::Pending { written: false }));
    assert_eq!(1, s.backlog);
    match s.handle_block(2, 0x4000, &[3, 4]) {
        BlockOutcome::Complete { piece, written } => {
            assert!(written);
            assert_eq!(&[1, 1, 3, 4][..], &piece.buf[0x3ffe..]);
            assert_eq!(0x4002, piece.downloaded);
        }
        _ => panic!("piece not complete"),
    }
    assert_eq!(0, s.pieces_len());
    assert!(s.is_done());
}

#[test]
fn watermark_follows_the_rate() {
    let mut s = DownloadState::new();
    s.pick_pieces(PieceInfo { index: 0, len: 0x4000 * 100 });
    s.fill_backlog(false, 0);
    assert_eq!(5, s.backlog);
    for _ in 0..5 {
        let b = s.backlog;
        match s.handle_block(0, 0, &[0]) {
            BlockOutcome::Pending { written: true } => {}
            _ => panic!("block not taken"),
        }
        assert_eq!(b - 1, s.backlog);
    }
    // Five blocks in 100 ms: fifty blocks a second.
    s.adjust_watermark(100);
    assert_eq!(50, s.max_requests);
    assert_eq!(1, s.rate.num_samples());
}

#[test]
fn torrent_cut_in_pieces() {
    let pieces = pieces_of(10, 4);
    assert_eq!(
        vec![PieceInfo { index: 0, len: 4 }, PieceInfo { index: 1, len: 4 }, PieceInfo { index: 2, len: 2 }],
        pieces
    );
    assert_eq!(vec![PieceInfo { index: 0, len: 4 }, PieceInfo { index: 1, len: 4 }], pieces_of(8, 4));
    assert!(pieces_of(0, 4).is_empty());
}
