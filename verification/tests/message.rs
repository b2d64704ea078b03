use torrent_core::client::ClientError;
use torrent_core::handshake::{Handshake, HANDSHAKE_LENGTH};
use torrent_core::message::{
    accepted_frame_length, bitfield_contains, frame_length, push_u32_be, read_u32_be, TorrentMessage, MAX_FRAME_LENGTH,
};

fn handshake_bytes(info_hash: [u8; 20], peer_id: [u8; 20]) -> Vec<u8> {
    let mut v = vec![19u8];
    v.extend_from_slice(b"BitTorrent protocol");
    v.extend_from_slice(&[0u8; 8]);
    v.extend_from_slice(&info_hash);
    v.extend_from_slice(&peer_id);
    v
}

#[test]
fn handshake_record_has_the_fixed_layout() {
    let h = Handshake::new([7u8; 20], *b"-XX0001-abcdefghijkl");
    let bytes = h.to_bytes();
    assert_eq!(bytes.len(), 68);
    assert_eq!(HANDSHAKE_LENGTH, 68);
    assert_eq!(bytes, handshake_bytes([7u8; 20], *b"-XX0001-abcdefghijkl"));
}

#[test]
fn handshake_is_accepted_for_the_expected_content() {
    let bytes = handshake_bytes([7u8; 20], [9u8; 20]);
    assert_eq!(Handshake::parse(&bytes, &[7u8; 20]), Ok(Handshake { info_hash: [7u8; 20], peer_id: [9u8; 20] }));
    let own = Handshake::new([1u8; 20], [2u8; 20]);
    assert_eq!(Handshake::parse(&own.to_bytes(), &[1u8; 20]), Ok(own));
}

#[test]
fn handshake_mismatch_is_an_error() {
    let bytes = handshake_bytes([7u8; 20], [9u8; 20]);
    assert_eq!(Handshake::parse(&bytes, &[8u8; 20]), Err(ClientError::Handshake));
    assert_eq!(Handshake::parse(&bytes[..67], &[7u8; 20]), Err(ClientError::Handshake));
    let mut long = bytes.clone();
    long.push(0);
    assert_eq!(Handshake::parse(&long, &[7u8; 20]), Err(ClientError::Handshake));
    assert_eq!(Handshake::parse(&[], &[7u8; 20]), Err(ClientError::Handshake));
    let mut almost = [7u8; 20];
    almost[19] = 6;
    assert_eq!(Handshake::parse(&bytes, &almost), Err(ClientError::Handshake));
}

#[test]
fn big_endian_numbers() {
    let mut out = vec![0xaa];
    push_u32_be(&mut out, 0x01020304);
    push_u32_be(&mut out, 0);
    push_u32_be(&mut out, u32::MAX);
    push_u32_be(&mut out, 16384);
    assert_eq!(out, vec![0xaa, 1, 2, 3, 4, 0, 0, 0, 0, 255, 255, 255, 255, 0, 0, 0x40, 0]);
    assert_eq!(read_u32_be(&out, 1), 0x01020304);
    assert_eq!(read_u32_be(&out, 9), u32::MAX);
    assert_eq!(read_u32_be(&out, 13), 16384);
    assert_eq!(frame_length(&[0, 0, 1, 2]), 258);
    assert_eq!(frame_length(&[0, 0, 1]), 0);
    assert_eq!(frame_length(&[]), 0);
    assert_eq!(frame_length(&[0, 0, 0, 1, 2]), 0);
}

#[test]
fn frames_have_a_length_prefix_and_an_id() {
    assert_eq!(TorrentMessage::KeepAlive.to_bytes(), vec![0, 0, 0, 0]);
    assert_eq!(TorrentMessage::Choke.to_bytes(), vec![0, 0, 0, 1, 0]);
    assert_eq!(TorrentMessage::Unchoke.to_bytes(), vec![0, 0, 0, 1, 1]);
    assert_eq!(TorrentMessage::Interested.to_bytes(), vec![0, 0, 0, 1, 2]);
    assert_eq!(TorrentMessage::NotInterested.to_bytes(), vec![0, 0, 0, 1, 3]);
    assert_eq!(TorrentMessage::Bitfield { bitfield: vec![0xf0, 0x01] }.to_bytes(), vec![0, 0, 0, 3, 5, 0xf0, 0x01]);
    assert_eq!(
        TorrentMessage::Request { index: 1, begin: 16384, length: 16384 }.to_bytes(),
        vec![0, 0, 0, 13, 6, 0, 0, 0, 1, 0, 0, 0x40, 0, 0, 0, 0x40, 0]
    );
    assert_eq!(
        TorrentMessage::Piece { index: 2, begin: 3, block: vec![9, 8, 7] }.to_bytes(),
        vec![0, 0, 0, 12, 7, 0, 0, 0, 2, 0, 0, 0, 3, 9, 8, 7]
    );
    assert_eq!(
        TorrentMessage::Cancel { index: 258, begin: 0, length: 5 }.to_bytes(),
        vec![0, 0, 0, 13, 8, 0, 0, 1, 2, 0, 0, 0, 0, 0, 0, 0, 5]
    );
    assert_eq!(TorrentMessage::Unknown { id: 20, payload: vec![1, 2] }.to_bytes(), vec![0, 0, 0, 3, 20, 1, 2]);
}

#[test]
fn payloads_are_read_back() {
    let messages = vec![
        TorrentMessage::KeepAlive,
        TorrentMessage::Choke,
        TorrentMessage::Unchoke,
        TorrentMessage::Interested,
        TorrentMessage::NotInterested,
        TorrentMessage::Bitfield { bitfield: vec![] },
        TorrentMessage::Bitfield { bitfield: vec![0x80, 0x00, 0xff] },
        TorrentMessage::Request { index: u32::MAX, begin: 0, length: 16384 },
        TorrentMessage::Piece { index: 0, begin: 32768, block: vec![] },
        TorrentMessage::Piece { index: 5, begin: 16384, block: vec![1; 100] },
        TorrentMessage::Cancel { index: 7, begin: 8, length: 9 },
        TorrentMessage::Unknown { id: 4, payload: vec![0, 0, 0, 1] },
        TorrentMessage::Unknown { id: 9, payload: vec![0x1a, 0xe1] },
        TorrentMessage::Unknown { id: 255, payload: vec![] },
    ];
    for m in messages {
        let frame = m.to_bytes();
        assert_eq!(frame_length(&frame[..4]) as usize, frame.len() - 4);
        assert_eq!(TorrentMessage::read(&frame[4..]), m);
    }
}

#[test]
fn unrecognised_payloads_are_tolerated() {
    assert_eq!(TorrentMessage::read(&[99]), TorrentMessage::Unknown { id: 99, payload: vec![] });
    assert_eq!(TorrentMessage::read(&[0, 1]), TorrentMessage::Unknown { id: 0, payload: vec![1] });
    assert_eq!(TorrentMessage::read(&[6, 0, 0]), TorrentMessage::Unknown { id: 6, payload: vec![0, 0] });
    assert_eq!(
        TorrentMessage::read(&[7, 0, 0, 0, 1, 0, 0, 0]),
        TorrentMessage::Unknown { id: 7, payload: vec![0, 0, 0, 1, 0, 0, 0] }
    );
    assert_eq!(
        TorrentMessage::read(&[8, 1, 2, 3, 4, 5, 6, 7, 8, 9, 10, 11, 12, 13]),
        TorrentMessage::Unknown { id: 8, payload: vec![1, 2, 3, 4, 5, 6, 7, 8, 9, 10, 11, 12, 13] }
    );
    assert_eq!(TorrentMessage::read(&[]), TorrentMessage::KeepAlive);
}

#[test]
fn bitfield_bits_are_counted_from_the_high_bit() {
    let bits = [0b1000_0001u8, 0b0100_0000u8];
    assert!(bitfield_contains(&bits, 0));
    assert!(!bitfield_contains(&bits, 1));
    assert!(bitfield_contains(&bits, 7));
    assert!(!bitfield_contains(&bits, 8));
    assert!(bitfield_contains(&bits, 9));
    assert!(!bitfield_contains(&bits, 15));
    assert!(!bitfield_contains(&bits, 16));
    assert!(!bitfield_contains(&bits, u32::MAX));
    assert!(!bitfield_contains(&[], 0));
    let message = TorrentMessage::Bitfield { bitfield: bits.to_vec() };
    assert!(message.source_has_piece(9));
    assert!(!message.source_has_piece(10));
    assert!(!TorrentMessage::Unchoke.source_has_piece(0));
    assert!(!TorrentMessage::Piece { index: 0, begin: 0, block: vec![0xff] }.source_has_piece(0));
}

#[test]
fn frames_over_the_limit_are_refused() {
    assert_eq!(MAX_FRAME_LENGTH, 1048576);
    assert_eq!(accepted_frame_length(&[0, 0, 0, 0]), Ok(0));
    assert_eq!(accepted_frame_length(&[0, 0, 0x40, 9]), Ok(16393));
    assert_eq!(accepted_frame_length(&[0, 0x10, 0, 0]), Ok(1048576));
    assert_eq!(accepted_frame_length(&[0, 0x10, 0, 1]), Err(ClientError::Io("frame too long".to_string())));
    assert_eq!(accepted_frame_length(&[0xff, 0xff, 0xff, 0xff]), Err(ClientError::Io("frame too long".to_string())));
    assert_eq!(accepted_frame_length(&[0xff, 0xff]), Ok(0));
    assert_eq!(accepted_frame_length(&[]), Ok(0));
}
