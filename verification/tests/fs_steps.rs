use btrs::fs::{read_exact_next, write_all_next, IoStep, TransferNext};

#[test]
fn read_steps() {
    assert_eq!(TransferNext::Finished, read_exact_next(4, 0, IoStep::Moved(4)));
    assert_eq!(TransferNext::Continue { remaining: 1, offset: 13 }, read_exact_next(4, 10, IoStep::Moved(3)));
    assert_eq!(TransferNext::UnexpectedEof, read_exact_next(4, 10, IoStep::Moved(0)));
    assert_eq!(TransferNext::Continue { remaining: 4, offset: 10 }, read_exact_next(4, 10, IoStep::Interrupted));
    assert_eq!(TransferNext::Failed, read_exact_next(4, 10, IoStep::Failed));
}

#[test]
fn write_steps() {
    assert_eq!(TransferNext::Finished, write_all_next(2, 5, IoStep::Moved(2)));
    assert_eq!(TransferNext::Continue { remaining: 1, offset: 6 }, write_all_next(2, 5, IoStep::Moved(1)));
    assert_eq!(TransferNext::WriteZero, write_all_next(2, 5, IoStep::Moved(0)));
    assert_eq!(TransferNext::Continue { remaining: 2, offset: 5 }, write_all_next(2, 5, IoStep::Interrupted));
    assert_eq!(TransferNext::Failed, write_all_next(2, 5, IoStep::Failed));
}
