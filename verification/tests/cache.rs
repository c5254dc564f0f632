use btrs::cache::{Cache, Piece, Write};

fn piece(index: u32, byte: u8, len: usize) -> Piece {
    Piece { index, buf: vec![byte; len] }
}

fn summary(ws: &[Write]) -> Vec<(u64, Vec<u8>)> {
    ws.iter().map(|w| (w.offset, w.data.clone())).collect()
}

#[test]
fn flush_joins_consecutive_pieces() {
    let mut c = Cache::new(10, 4);
    assert!(c.push(piece(3, 3, 4)).is_empty());
    assert!(c.push(piece(1, 1, 4)).is_empty());
    assert!(c.push(piece(2, 2, 4)).is_empty());
    assert!(c.push(piece(7, 7, 4)).is_empty());
    assert_eq!(4, c.len());
    let ws = c.flush();
    assert_eq!(0, c.len());
    assert_eq!(
        vec![(4, vec![1, 1, 1, 1, 2, 2, 2, 2, 3, 3, 3, 3]), (28, vec![7, 7, 7, 7])],
        summary(&ws)
    );
}

#[test]
fn push_flushes_at_limit() {
    let mut c = Cache::new(2, 10);
    assert!(c.push(piece(5, 5, 1)).is_empty());
    let ws = c.push(piece(0, 9, 2));
    assert_eq!(vec![(0, vec![9, 9]), (50, vec![5])], summary(&ws));
    assert_eq!(0, c.len());
}

#[test]
fn flush_of_empty_cache_writes_nothing() {
    let mut c = Cache::new(3, 16);
    assert!(c.flush().is_empty());
}

#[test]
fn same_index_twice_is_written_twice() {
    let mut c = Cache::new(5, 2);
    c.push(piece(1, 1, 2));
    c.push(piece(1, 2, 2));
    let ws = c.flush();
    assert_eq!(vec![(2, vec![1, 1]), (2, vec![2, 2])], summary(&ws));
}

#[test]
fn index_to_offset_is_piece_len_times_index() {
    let c = Cache::new(1, 0x4000);
    assert_eq!(0x4000 * 7, c.index_to_offset(7));
}

#[test]
fn flush_writes_every_byte_once() {
    let mut c = Cache::new(100, 3);
    for i in [9u32, 2, 4, 3, 0, 8] {
        c.push(piece(i, i as u8, 3));
    }
    let ws = c.flush();
    let all: Vec<u8> = ws.iter().flat_map(|w| w.data.clone()).collect();
    let mut expected = Vec::new();
    for i in [0u8, 2, 3, 4, 8, 9] {
        expected.extend_from_slice(&[i, i, i]);
    }
    assert_eq!(expected, all);
    assert_eq!(vec![0, 6, 24], ws.iter().map(|w| w.offset).collect::<Vec<_>>());
}
