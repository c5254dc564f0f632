use btrs::dht::id::{IdError, NodeId};
use btrs::kademlia;

#[test]
fn id_sort_order() {
    let mut a = [NodeId::all(0), NodeId::all(3), NodeId::all(1)];
    a.sort();
    assert_eq!([NodeId::all(0), NodeId::all(1), NodeId::all(3)], a);
}

#[test]
fn id_xor() {
    let a = NodeId::all(0b0000_0101);
    let b = NodeId::all(0b1100_0100);
    let c = a ^ b;
    assert_eq!(NodeId::all(0b1100_0001), c);
}

#[test]
fn id_decode_hex() {
    let h = b"3F3F3F3F3F3F3F3F3F3F3F3F3F3F3F3F3F3F3F3F";
    let n = NodeId::decode_hex(h).unwrap();
    assert_eq!(NodeId::all(0x3F), n);
    let n = NodeId::from_hex(h).unwrap();
    assert_eq!(NodeId::all(0x3F), n);
}

#[test]
fn id_encode_hex() {
    let n = NodeId::all(0x3F);
    let mut buf = [0; 40];
    n.encode_hex(&mut buf).unwrap();
    assert_eq!(b"3F3F3F3F3F3F3F3F3F3F3F3F3F3F3F3F3F3F3F3F"[..], buf[..]);
}

#[test]
fn hex_errors() {
    assert_eq!(Err(IdError::InvalidLength), NodeId::decode_hex(b"3F3F"));
    let bad = [b'z'; 40];
    assert_eq!(Err(IdError::InvalidHex), NodeId::decode_hex(&bad));
    let mut small = [0u8; 10];
    assert_eq!(Err(IdError::InvalidLength), NodeId::all(1).encode_hex(&mut small));
}

#[test]
fn test_gen_lz() {
    let n = NodeId::gen_lz(5);
    assert!(n.lz() >= 5);
}

#[test]
fn test_mask_lz() {
    let actual = NodeId::mask_lz(5);
    let mut expected = NodeId::max();
    expected.0[0] = 0b0000_0111;
    assert_eq!(5, actual.lz());
    assert_eq!(expected, actual);

    let actual = NodeId::mask_lz(8);
    let mut expected = NodeId::max();
    expected.0[0] = 0;
    assert_eq!(8, actual.lz());
    assert_eq!(expected, actual);

    let actual = NodeId::mask_lz(9);
    let mut expected = NodeId::max();
    expected.0[0] = 0;
    expected.0[1] = 0b0111_1111;
    assert_eq!(9, actual.lz());
    assert_eq!(expected, actual);
}

#[test]
fn mask_lz_past_the_end_is_zero() {
    assert_eq!(NodeId::new(), NodeId::mask_lz(160));
    assert_eq!(NodeId::new(), NodeId::mask_lz(500));
    assert_eq!(160, NodeId::mask_lz(200).lz());
}

#[test]
fn lz_and_xlz() {
    assert_eq!(2, NodeId::of_byte(0b0010_0010).lz());
    assert_eq!(160, NodeId::new().lz());
    assert_eq!(0, NodeId::max().lz());
    let a = NodeId::all(0b1000_0000);
    let b = NodeId::all(0b1010_0000);
    assert_eq!(2, a.xlz(&b));
    assert_eq!(2, b.xlz(&a));
    assert_eq!(160, a.xlz(&a));
    assert!(NodeId::new().is_zero());
    assert!(!NodeId::all(1).is_zero());
}

#[test]
fn xor_undoes_itself() {
    let a = NodeId::all(0x5a);
    let b = NodeId::all(0xc3);
    assert_eq!(a, (a ^ b) ^ b);
    assert_eq!(a ^ b, b ^ a);
    assert_eq!(NodeId::all(0x42), NodeId::all(0x5a) & NodeId::all(0xc3));
}

#[test]
fn kademlia_distances() {
    let a = kademlia::NodeId::from([0u8; 20]);
    let mut bytes = [0u8; 20];
    bytes[0] = 0b0001_0000;
    let b = kademlia::NodeId::from(bytes);
    assert_eq!(3, a.dist(&b).leading_zeros());
    assert_eq!(157, a.dist_exp(&b));
    assert_eq!(0, a.dist_exp(&a));
    assert_eq!(0, a.min_dist_exp(&[b.clone(), a.clone()]));
    assert_eq!(160, a.min_dist_exp(&[]));
    assert!(a.compare_ref(&a, &b));
    assert!(!a.compare_ref(&b, &a));
}

#[test]
fn sort_order() {
    let mut a = [NodeId::of_byte(0), NodeId::of_byte(3), NodeId::of_byte(1)];
    a.sort();
    assert_eq!([NodeId::of_byte(0), NodeId::of_byte(1), NodeId::of_byte(3)], a);
}

#[test]
fn xor() {
    let a = NodeId::of_byte(0b0000_0101);
    let b = NodeId::of_byte(0b1100_0100);
    let c = &a ^ &b;
    assert_eq!(NodeId::of_byte(0b1100_0001), c);
}
