use btrs::bencode::BValue;
use btrs::msg::{ExtendedMessage, Message, Metadata, MetadataMsg, PayloadError, ReadError};

#[test]
fn extended_new() {
    let ext = ExtendedMessage::new(&[0, b'd', b'e', 1, 2, 3, 4]).unwrap();
    assert_eq!(0, ext.id);
    assert_eq!(BValue::Dict(b"de".to_vec()), ext.value);
    assert_eq!(&[1, 2, 3, 4], &ext.rest[..]);
}

fn read_all(v: &[u8]) -> (Option<Message>, usize) {
    Message::read(v).unwrap()
}

#[test]
fn read_discard_piece_bytes() {
    let v = [0, 0, 0, 12, 7, 0x01, 0x02, 0x03, 0x04, 0x04, 0x03, 0x02, 0x01, 1, 2, 3];
    let (m, n) = read_all(&v);
    assert_eq!(Some(Message::Piece { index: 0x0102_0304, begin: 0x0403_0201, len: 3 }), m);
    assert_eq!(13, n);
}

#[test]
fn read_simple_messages() {
    assert_eq!((Some(Message::Choke), 5), read_all(&[0, 0, 0, 1, 0]));
    assert_eq!((Some(Message::Unchoke), 5), read_all(&[0, 0, 0, 1, 1]));
    assert_eq!((Some(Message::Interested), 5), read_all(&[0, 0, 0, 1, 2]));
    assert_eq!((Some(Message::NotInterested), 5), read_all(&[0, 0, 0, 1, 3]));
    assert_eq!((None, 4), read_all(&[0, 0, 0, 0]));
    assert_eq!(
        (Some(Message::Have { index: 0x0102_0304 }), 9),
        read_all(&[0, 0, 0, 5, 4, 0x01, 0x02, 0x03, 0x04])
    );
}

#[test]
fn read_bitfield_bytes() {
    let v = [0, 0, 0, 5, 5, 0x01, 0x02, 0x03, 0x04];
    let (m, n) = read_all(&v);
    let m = m.unwrap();
    assert_eq!(Message::Bitfield { len: 4 }, m);
    let mut buf = [0; 4];
    m.read_bitfield(&v[n..], &mut buf).unwrap();
    assert_eq!([0x01, 0x02, 0x03, 0x04], buf);
}

#[test]
fn read_request_and_cancel_bytes() {
    let v = [0, 0, 0, 13, 6, 0x01, 0x02, 0x03, 0x04, 0x01, 0x02, 0x03, 0x04, 0x01, 0x02, 0x03, 0x04];
    assert_eq!(
        (Some(Message::Request { index: 0x0102_0304, begin: 0x0102_0304, len: 0x0102_0304 }), 17),
        read_all(&v)
    );
    let v = [0, 0, 0, 13, 8, 0x01, 0x02, 0x03, 0x04, 0x01, 0x02, 0x03, 0x04, 0x01, 0x02, 0x03, 0x04];
    assert_eq!(
        (Some(Message::Cancel { index: 0x0102_0304, begin: 0x0102_0304, len: 0x0102_0304 }), 17),
        read_all(&v)
    );
}

#[test]
fn read_piece_bytes() {
    let v = [0, 0, 0, 12, 7, 0x01, 0x02, 0x03, 0x04, 0, 0, 0, 0, 1, 2, 3];
    let (m, n) = read_all(&v);
    let m = m.unwrap();
    assert_eq!(Message::Piece { index: 0x0102_0304, begin: 0, len: 3 }, m);
    let mut d = [0; 3];
    m.read_piece(&v[n..], &mut d).unwrap();
    assert_eq!(&[1, 2, 3], &d[..]);
}

#[test]
fn read_piece_bounds() {
    let m = Message::Piece { index: 0, begin: 5, len: 2 };
    let mut d = [0u8; 4];
    assert_eq!(Err(PayloadError::BeginTooHigh), m.read_piece(&[1, 2], &mut d));
    let m = Message::Piece { index: 0, begin: 3, len: 2 };
    assert_eq!(Err(PayloadError::TooLarge), m.read_piece(&[1, 2], &mut d));
    let m = Message::Piece { index: 0, begin: 2, len: 2 };
    m.read_piece(&[7, 8], &mut d).unwrap();
    assert_eq!([0, 0, 7, 8], d);
    assert_eq!(Err(PayloadError::WrongMessage), Message::Choke.read_piece(&[], &mut d));
}

#[test]
fn read_extended_bytes() {
    let v = [0, 0, 0, 4, 20, 1, b'd', b'e'];
    let (m, n) = read_all(&v);
    let m = m.unwrap();
    assert_eq!(Message::Extended { len: 3 }, m);
    let ext = m.read_ext(&v[n..]).unwrap();
    assert!(!ext.is_handshake());
    assert!(ext.metadata().is_none());
}

#[test]
fn read_errors() {
    assert_eq!(Err(ReadError::Eof), Message::read(&[0, 0, 1]));
    assert_eq!(Err(ReadError::InvalidChoke), Message::read(&[0, 0, 0, 2, 0]));
    assert_eq!(Err(ReadError::InvalidHave), Message::read(&[0, 0, 0, 4, 4]));
    assert_eq!(Err(ReadError::InvalidPiece), Message::read(&[0, 0, 0, 9, 7]));
    assert_eq!(Err(ReadError::Eof), Message::read(&[0, 0, 0, 13, 6, 1]));
    assert_eq!(
        Ok((Some(Message::Unknown { id: 9, len: 2 }), 5)),
        Message::read(&[0, 0, 0, 3, 9])
    );
}

#[test]
fn write_then_read_gives_the_message() {
    for m in [
        Message::Choke,
        Message::Unchoke,
        Message::Interested,
        Message::NotInterested,
        Message::Have { index: 77 },
        Message::Request { index: 1, begin: 2, len: 3 },
        Message::Cancel { index: 4, begin: 5, len: 6 },
    ] {
        let mut out = vec![];
        m.write(&mut out);
        let (back, n) = read_all(&out);
        assert_eq!(Some(m), back);
        assert_eq!(out.len(), n);
    }
}

#[test]
fn write_buf_and_ext() {
    let mut out = vec![];
    Message::Bitfield { len: 2 }.write_buf(&mut out, &[0xaa, 0xbb]);
    assert_eq!(vec![0, 0, 0, 3, 5, 0xaa, 0xbb], out);

    let mut out = vec![];
    Message::Piece { index: 1, begin: 2, len: 1 }.write_buf(&mut out, &[9]);
    assert_eq!(vec![0, 0, 0, 10, 7, 0, 0, 0, 1, 0, 0, 0, 2, 9], out);

    let mut out = vec![];
    Message::Extended { len: 1 }.write_ext(&mut out, 3, &[b'x']);
    assert_eq!(vec![0, 0, 0, 3, 20, 3, b'x'], out);

    assert_eq!(20, Message::Extended { len: 0 }.type_id());
    assert_eq!(255, Message::Unknown { id: 3, len: 0 }.type_id());
}

#[test]
fn metadata_messages() {
    assert_eq!(
        &b"d1:md11:ut_metadatai3ee1:pi6881e4:reqqi500ee"[..],
        &MetadataMsg::Handshake(3).encode_to_vec()[..]
    );
    assert_eq!(&b"d8:msg_typei0e5:piecei2ee"[..], &MetadataMsg::Request(2).encode_to_vec()[..]);
    assert_eq!(&b"d8:msg_typei2e5:piecei2ee"[..], &MetadataMsg::Reject(2).encode_to_vec()[..]);
    assert_eq!(
        &b"d8:msg_typei1e5:piecei2e10:total_sizei-5ee"[..],
        &MetadataMsg::Data(2, -5).encode_to_vec()[..]
    );

    let mut payload = vec![0u8];
    payload.extend_from_slice(b"d1:md11:ut_metadatai3ee13:metadata_sizei1000ee");
    let ext = ExtendedMessage::new(&payload).unwrap();
    assert!(ext.is_handshake());
    assert_eq!(Some(Metadata { id: 3, len: 1000 }), ext.metadata());

    let mut data = vec![3u8];
    data.extend_from_slice(b"d8:msg_typei1e5:piecei0ee");
    data.extend_from_slice(&[1, 2, 3]);
    let ext = ExtendedMessage::new(&data).unwrap();
    assert_eq!(Ok(&[1u8, 2, 3][..]), ext.data(0));
    assert!(ext.data(1).is_err());
}

#[test]
fn payload_lengths() {
    assert_eq!(3, Message::Piece { index: 1, begin: 2, len: 3 }.payload_len());
    assert_eq!(4, Message::Bitfield { len: 4 }.payload_len());
    assert_eq!(5, Message::Extended { len: 5 }.payload_len());
    assert_eq!(6, Message::Unknown { id: 99, len: 6 }.payload_len());
    assert_eq!(0, Message::Request { index: 1, begin: 2, len: 3 }.payload_len());
    assert_eq!(0, Message::Choke.payload_len());
}
