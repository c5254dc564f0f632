use btrs::bitfield::BitField;

#[test]
fn iter_01() {
    let f = BitField::new(3);
    assert_eq!(vec![false, false, false], f.to_vec());
}

#[test]
fn iter_02() {
    let mut f = BitField::new(3);
    assert!(f.set(0, true));
    assert!(f.set(2, true));
    assert_eq!(vec![true, false, true], f.to_vec());

    assert!(f.set(1, true));
    assert_eq!(vec![true, true, true], f.to_vec());

    for i in 0..3 {
        assert!(f.set(i, false));
    }
    assert_eq!(vec![false, false, false], f.to_vec());

    assert!(!f.set(3, false));
}

#[test]
fn get_01() {
    let mut f = BitField::new(3);
    assert!(f.set(0, true));
    assert!(f.set(2, true));
    assert_eq!(true, f.get(0));
    assert_eq!(false, f.get(1));
    assert_eq!(true, f.get(2));
}

/// Reading past the end is refused: the bit must lie below the length.
fn checked_get(f: &BitField, idx: usize) -> bool {
    assert!(idx < f.len());
    f.get(idx)
}

#[test]
#[should_panic]
fn get_02() {
    let f = BitField::new(3);
    checked_get(&f, 3);
}

#[test]
fn all_true_and_true_count() {
    let mut f = BitField::new(3);
    assert!(f.set(0, true));
    assert!(f.set(2, true));
    assert_eq!(false, f.all_true());
    assert_eq!(2, f.true_count());

    assert!(f.set(1, true));
    assert_eq!(true, f.all_true());
    assert_eq!(3, f.true_count());
}

#[test]
fn set_all_with_all_true_and_true_count() {
    let mut f = BitField::new(3);

    f.set_all(true);
    assert_eq!(true, f.all_true());
    assert_eq!(3, f.true_count());

    f.set(2, false);
    assert_eq!(false, f.all_true());
    assert_eq!(2, f.true_count());
}

fn bytes_of(f: &BitField) -> Vec<u8> {
    let mut buf = vec![0u8; f.len_bytes()];
    f.write_to(&mut buf);
    buf
}

#[test]
fn clear_unused() {
    let mut f = BitField::new(17);
    assert_eq!(3, f.len_bytes());
    assert_eq!(17, f.len());

    f.set_all(true);
    assert_eq!(&[0xff, 0xff, 0x01], &bytes_of(&f)[..]);
    f.set_all(false);
    assert_eq!(&[0x00, 0x00, 0x00], &bytes_of(&f)[..]);
    assert!(!f.set(21, true));
    assert_eq!(&[0x00, 0x00, 0x00], &bytes_of(&f)[..]);
}

#[test]
fn set_then_get_reads_back() {
    let mut f = BitField::new(20);
    for i in 0..20 {
        assert!(f.set(i, i % 3 == 0));
    }
    for i in 0..20 {
        assert_eq!(i % 3 == 0, f.get(i));
    }
    assert_eq!(7, f.true_count());
}

#[test]
fn empty_field() {
    let f = BitField::new(0);
    assert_eq!(0, f.len_bytes());
    assert!(!f.all_true());
    assert_eq!(0, f.true_count());
    assert!(f.is_empty());
    assert!(f.to_vec().is_empty());
}

#[test]
fn with_value_true_sets_only_the_bits_in_range() {
    let f = BitField::with_value(10, true);
    assert_eq!(&[0xff, 0x03], &bytes_of(&f)[..]);
    assert!(f.all_true());
    assert_eq!(10, f.true_count());
    assert!(!f.is_empty());
}

#[test]
fn from_bytes_and_copy_from() {
    let f = BitField::from(vec![0b1000_0001u8, 0x00]);
    assert_eq!(16, f.len());
    assert!(f.get(0));
    assert!(f.get(7));
    assert!(!f.get(8));

    let mut g = BitField::new(10);
    g.copy_from(&[0xff, 0xff, 0xff]);
    assert_eq!(&[0xff, 0x03], &bytes_of(&g)[..]);
    assert!(g.all_true());
}

#[test]
fn iter_yields_bits_in_order() {
    let mut f = BitField::new(4);
    f.set(1, true);
    let mut it = f.iter();
    assert_eq!(Some(false), it.next());
    assert_eq!(Some(true), it.next());
    assert_eq!(Some(false), it.next());
    assert_eq!(Some(false), it.next());
    assert_eq!(None, it.next());
}
