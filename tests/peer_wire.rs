use bittorrent::peer::{
    decode_message, frame_length, frame_message, handshake, peer_id, Bitfield, BytesConvertible,
    EmptyPayload, Handshake, Message, MessageType, Piece, PeerError, RequestPayload,
    TryFromBytes,
};
use bittorrent::torrent_file::InfoHash;

#[test]
fn bitfield_semantics() {
    let b = Bitfield(vec![0x80, 0x00]);
    assert!(b.has_piece(0));
    assert!(!b.has_piece(1));
    assert!(!b.has_piece(8));
    let b = Bitfield(vec![0x01, 0x00]);
    for i in 0..16 {
        assert_eq!(b.has_piece(i), i == 7);
    }
}

#[test]
fn bitfield_bits_are_msb_first() {
    let bytes = vec![0b1010_0110u8, 0b0000_0001, 0xff];
    let b = Bitfield(bytes.clone());
    for i in 0..32usize {
        let expected = i / 8 < bytes.len() && (bytes[i / 8] >> (7 - i % 8)) & 1 == 1;
        assert_eq!(b.has_piece(i), expected, "bit {i}");
    }
    assert!(!b.has_piece(1000));
}

#[test]
fn message_ids_round_trip() {
    for id in 0..=8u8 {
        assert_eq!(MessageType::from_id(id).unwrap().id(), id);
    }
    assert_eq!(MessageType::from_id(9), None);
    assert_eq!(MessageType::from_id(7), Some(MessageType::Piece));
}

#[test]
fn frames_interested_and_request() {
    let m = Message { message_type: MessageType::Interested, payload: EmptyPayload };
    assert_eq!(frame_message(&m), vec![0, 0, 0, 1, 2]);
    let r = RequestPayload::new(1, 16384, 16384);
    assert_eq!(r.as_bytes(), vec![0, 0, 0, 1, 0, 0, 64, 0, 0, 0, 64, 0]);
    let m = Message { message_type: MessageType::Request, payload: r };
    assert_eq!(
        frame_message(&m),
        vec![0, 0, 0, 13, 6, 0, 0, 0, 1, 0, 0, 64, 0, 0, 0, 64, 0]
    );
    assert_eq!(frame_length(&[0, 0, 1, 2]), 258);
}

#[test]
fn decodes_piece_messages() {
    let payload = vec![0, 0, 0, 2, 0, 0, 0x40, 0, 9, 8, 7];
    let m = decode_message::<Piece>(7, payload).unwrap();
    assert_eq!(m.message_type, MessageType::Piece);
    assert_eq!(m.payload.index, 2);
    assert_eq!(m.payload.begin, 16384);
    assert_eq!(m.payload.block, vec![9, 8, 7]);
}

#[test]
fn rejects_bad_messages() {
    assert_eq!(
        decode_message::<EmptyPayload>(9, vec![]).err(),
        Some(PeerError::UnexpectedMessage)
    );
    assert!(decode_message::<Piece>(7, vec![0; 7]).is_err());
    assert!(decode_message::<Bitfield>(4, vec![0; 3]).is_err());
    assert!(decode_message::<Bitfield>(6, vec![0; 11]).is_err());
    assert!(decode_message::<EmptyPayload>(1, vec![0]).is_err());
    let m = decode_message::<EmptyPayload>(1, vec![]).unwrap();
    assert_eq!(m.message_type, MessageType::Unchoke);
    let m = decode_message::<Bitfield>(5, vec![0xf0]).unwrap();
    assert!(m.payload.has_piece(3));
    assert!(Piece::try_from_bytes(vec![0; 8]).unwrap().block.is_empty());
}

fn info_hash() -> InfoHash {
    InfoHash(core::array::from_fn(|i| i as u8 * 3))
}

#[test]
fn handshake_frame_layout() {
    let h = Handshake::new(&info_hash(), peer_id());
    let b = h.as_bytes();
    assert_eq!(b.len(), 68);
    assert_eq!(b[0], 19);
    assert_eq!(&b[1..20], b"BitTorrent protocol");
    assert_eq!(&b[20..28], &[0u8; 8]);
    assert_eq!(&b[28..48], &info_hash().0);
    assert_eq!(&b[48..68], b"00112233445566778899");
}

#[test]
fn handshake_reply_gives_the_peer_id_in_hex() {
    let mut reply = Handshake::new(&info_hash(), peer_id()).as_bytes();
    for (i, byte) in reply[48..68].iter_mut().enumerate() {
        *byte = 0xa0 + i as u8;
    }
    let id = handshake(&info_hash(), &reply).unwrap();
    assert_eq!(id, hex::encode(&reply[48..68]));
    assert!(id.starts_with("a0a1a2"));
}

#[test]
fn handshake_mismatches_fail() {
    let good = Handshake::new(&info_hash(), peer_id()).as_bytes();
    let mut other_hash = good.clone();
    other_hash[30] ^= 1;
    assert_eq!(handshake(&info_hash(), &other_hash), Err(PeerError::HandshakeFailed));
    let mut other_pstr = good.clone();
    other_pstr[5] = b'x';
    assert_eq!(handshake(&info_hash(), &other_pstr), Err(PeerError::HandshakeFailed));
    let mut other_len = good.clone();
    other_len[0] = 18;
    assert_eq!(handshake(&info_hash(), &other_len), Err(PeerError::HandshakeFailed));
    assert_eq!(handshake(&info_hash(), &good[..67]), Err(PeerError::HandshakeFailed));
}
