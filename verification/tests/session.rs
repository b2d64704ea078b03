use torrent_core::bencode::{BencodeValue, Dict};
use torrent_core::client::{Client, ClientError};
use torrent_core::handshake::Handshake;
use torrent_core::message::TorrentMessage;
use torrent_core::session::{assemble_blocks, PeerSession, SessionAction, SessionState, PAYLOAD_LENGTH};
use torrent_core::torrent_file::TorrentFile;
use torrent_core::tracker::Peer;

const INFO_HASH: [u8; 20] = [3u8; 20];
const OUR_ID: [u8; 20] = [4u8; 20];
const THEIR_ID: [u8; 20] = [5u8; 20];

fn reply() -> Vec<u8> {
    Handshake::new(INFO_HASH, THEIR_ID).to_bytes()
}

fn established(piece_id: u32, piece_length: u32) -> PeerSession {
    let mut s = PeerSession::new(INFO_HASH, OUR_ID, piece_id, piece_length);
    assert_eq!(s.on_connected(), SessionAction::SendHandshake(Handshake::new(INFO_HASH, OUR_ID).to_bytes()));
    assert_eq!(s.on_handshake(&reply()), SessionAction::ReadFrame);
    s
}

fn request(index: u32, begin: u32, length: u32) -> SessionAction {
    SessionAction::SendRequest(TorrentMessage::Request { index, begin, length }.to_bytes())
}

fn out_of_order() -> SessionAction {
    SessionAction::Fail(ClientError::InvalidInput("event out of order".to_string()))
}

#[test]
fn states_follow_the_protocol() {
    let mut s = PeerSession::new(INFO_HASH, OUR_ID, 1, 20000);
    assert_eq!(s.state(), SessionState::Connecting);
    s.on_connected();
    assert_eq!(s.state(), SessionState::Handshaking);
    s.on_handshake(&reply());
    assert_eq!(s.state(), SessionState::AwaitingBitfield);
    assert_eq!(s.on_message(TorrentMessage::Bitfield { bitfield: vec![0b0100_0000] }), SessionAction::ReadFrame);
    assert_eq!(s.state(), SessionState::Choked);
    assert_eq!(s.on_message(TorrentMessage::Unchoke), request(1, 0, 16384));
    assert_eq!(s.state(), SessionState::Downloading(1));
    assert_eq!(s.on_message(TorrentMessage::Choke), SessionAction::ReadFrame);
    assert_eq!(s.state(), SessionState::Choked);
}

#[test]
fn unchoke_before_bitfield_waits_for_the_bitfield() {
    let mut s = established(0, 100);
    assert_eq!(s.on_message(TorrentMessage::Unchoke), SessionAction::ReadFrame);
    assert_eq!(s.state(), SessionState::Unchoked);
    assert_eq!(s.on_message(TorrentMessage::Bitfield { bitfield: vec![0x80] }), request(0, 0, 100));
    assert_eq!(s.state(), SessionState::Downloading(0));
}

#[test]
fn blocks_are_requested_in_order_and_the_last_is_shorter() {
    let piece_length = 2 * PAYLOAD_LENGTH + 100;
    let mut s = established(2, piece_length);
    s.on_message(TorrentMessage::Bitfield { bitfield: vec![0b0010_0000] });
    assert_eq!(s.on_message(TorrentMessage::Unchoke), request(2, 0, 16384));
    assert_eq!(s.next_missing(), Some(0));
    let a = vec![1u8; 16384];
    let b = vec![2u8; 16384];
    let c = vec![3u8; 100];
    assert_eq!(
        s.on_message(TorrentMessage::Piece { index: 2, begin: 0, block: a.clone() }),
        request(2, 16384, 16384)
    );
    assert_eq!(
        s.on_message(TorrentMessage::Piece { index: 2, begin: 16384, block: b.clone() }),
        request(2, 32768, 100)
    );
    assert_eq!(s.on_message(TorrentMessage::KeepAlive), request(2, 32768, 100));
    let mut whole = a;
    whole.extend(b);
    whole.extend(c.clone());
    assert_eq!(
        s.on_message(TorrentMessage::Piece { index: 2, begin: 32768, block: c }),
        SessionAction::Finished(whole)
    );
    assert_eq!(s.state(), SessionState::Done);
    assert_eq!(s.next_missing(), None);
    assert_eq!(s.on_message(TorrentMessage::KeepAlive), out_of_order());
    assert_eq!(s.state(), SessionState::Done);
}

#[test]
fn blocks_may_arrive_in_any_order() {
    let mut s = established(0, 40000);
    s.on_message(TorrentMessage::Bitfield { bitfield: vec![0x80] });
    s.on_message(TorrentMessage::Unchoke);
    assert_eq!(
        s.on_message(TorrentMessage::Piece { index: 0, begin: 32768, block: vec![9; 7232] }),
        request(0, 0, 16384)
    );
    assert_eq!(
        s.on_message(TorrentMessage::Piece { index: 0, begin: 0, block: vec![7; 16384] }),
        request(0, 16384, 16384)
    );
    let done = s.on_message(TorrentMessage::Piece { index: 0, begin: 16384, block: vec![8; 16384] });
    let mut whole = vec![7u8; 16384];
    whole.extend(vec![8u8; 16384]);
    whole.extend(vec![9u8; 7232]);
    assert_eq!(done, SessionAction::Finished(whole));
}

#[test]
fn nothing_is_requested_while_choked() {
    let mut s = established(0, 100);
    assert_eq!(s.on_message(TorrentMessage::Bitfield { bitfield: vec![0xff] }), SessionAction::ReadFrame);
    assert_eq!(s.on_message(TorrentMessage::KeepAlive), SessionAction::ReadFrame);
    assert_eq!(s.on_message(TorrentMessage::Interested), SessionAction::ReadFrame);
    assert_eq!(s.on_message(TorrentMessage::Unknown { id: 4, payload: vec![0, 0, 0, 0] }), SessionAction::ReadFrame);
    assert_eq!(s.on_message(TorrentMessage::Unchoke), request(0, 0, 100));
    assert_eq!(s.on_message(TorrentMessage::Choke), SessionAction::ReadFrame);
    assert_eq!(s.on_message(TorrentMessage::KeepAlive), SessionAction::ReadFrame);
}

#[test]
fn only_the_first_bitfield_counts() {
    let mut s = established(0, 100);
    s.on_message(TorrentMessage::Bitfield { bitfield: vec![0x80] });
    assert_eq!(s.on_message(TorrentMessage::Bitfield { bitfield: vec![0x00] }), SessionAction::ReadFrame);
    assert_eq!(s.on_message(TorrentMessage::Unchoke), request(0, 0, 100));
}

#[test]
fn peer_without_the_piece_fails_the_session() {
    let mut s = established(9, 100);
    assert_eq!(
        s.on_message(TorrentMessage::Bitfield { bitfield: vec![0xff] }),
        SessionAction::Fail(ClientError::BlockNotPresent(9))
    );
    assert_eq!(s.state(), SessionState::Failed);
    assert_eq!(s.on_message(TorrentMessage::Unchoke), out_of_order());
}

#[test]
fn block_outside_the_piece_is_ignored() {
    let mut s = established(0, 100);
    s.on_message(TorrentMessage::Bitfield { bitfield: vec![0x80] });
    s.on_message(TorrentMessage::Unchoke);
    assert_eq!(
        s.on_message(TorrentMessage::Piece { index: 0, begin: 16384, block: vec![1; 10] }),
        request(0, 0, 100)
    );
    assert_eq!(s.next_missing(), Some(0));
}

#[test]
fn wrong_handshake_fails_the_session() {
    let mut s = PeerSession::new(INFO_HASH, OUR_ID, 0, 100);
    s.on_connected();
    let other = Handshake::new([0u8; 20], THEIR_ID).to_bytes();
    assert_eq!(s.on_handshake(&other), SessionAction::Fail(ClientError::Handshake));
    assert_eq!(s.state(), SessionState::Failed);

    let mut short = PeerSession::new(INFO_HASH, OUR_ID, 0, 100);
    short.on_connected();
    assert_eq!(short.on_handshake(&reply()[..40]), SessionAction::Fail(ClientError::Handshake));
}

#[test]
fn timeouts_and_io_errors_end_the_session() {
    let mut s = PeerSession::new(INFO_HASH, OUR_ID, 0, 100);
    assert_eq!(s.on_timeout(), SessionAction::Fail(ClientError::Timeout));
    assert_eq!(s.state(), SessionState::Failed);
    assert_eq!(s.on_timeout(), out_of_order());

    let mut t = established(0, 100);
    assert_eq!(
        t.on_io_error("connection reset".to_string()),
        SessionAction::Fail(ClientError::Io("connection reset".to_string()))
    );
    assert_eq!(t.state(), SessionState::Failed);
    assert_eq!(t.on_io_error("again".to_string()), out_of_order());
}

#[test]
fn events_out_of_order_are_refused() {
    let mut s = PeerSession::new(INFO_HASH, OUR_ID, 0, 100);
    assert_eq!(s.on_message(TorrentMessage::Unchoke), out_of_order());
    assert_eq!(s.on_handshake(&reply()), out_of_order());
    assert_eq!(s.state(), SessionState::Connecting);
    s.on_connected();
    assert_eq!(s.on_connected(), out_of_order());
    assert_eq!(s.state(), SessionState::Handshaking);
}

#[test]
fn empty_piece_is_finished_at_once() {
    let mut s = PeerSession::new(INFO_HASH, OUR_ID, 0, 0);
    s.on_connected();
    assert_eq!(s.on_handshake(&reply()), SessionAction::Finished(vec![]));
}

#[test]
fn assembling_skips_what_is_missing() {
    let blocks = vec![Some(vec![1, 2]), None, Some(vec![]), Some(vec![3])];
    assert_eq!(assemble_blocks(&blocks), vec![1, 2, 3]);
    assert_eq!(assemble_blocks(&vec![]), Vec::<u8>::new());
    assert_eq!(assemble_blocks(&vec![None, None]), Vec::<u8>::new());
}

#[test]
fn client_builds_pieces_and_checks_digests() {
    let client = Client::new(TorrentFile::new("url".to_string()), Peer { ip_addr: [127, 0, 0, 1], port_number: 6881 });
    assert_eq!(client.client_peer_id(), *b"01234567890123456789");
    assert_eq!(client.peer(), Peer { ip_addr: [127, 0, 0, 1], port_number: 6881 });
    assert_eq!(client.torrent_file().announce(), "url");
    assert_eq!(client.handshake(), Handshake::new([0u8; 20], *b"01234567890123456789"));

    let mut blocks = vec![Some(b"hello ".to_vec()), Some(b"world".to_vec())];
    let piece = client.build_piece_from_blocks(&mut blocks);
    assert_eq!(piece, b"hello world".to_vec());
    assert_eq!(blocks, vec![Some(b"hello ".to_vec()), Some(b"world".to_vec())]);

    let digest: [u8; 20] = [
        0x2a, 0xae, 0x6c, 0x35, 0xc9, 0x4f, 0xcf, 0xb4, 0x15, 0xdb, 0xe9, 0x5f, 0x40, 0x8b, 0x9c, 0xe9, 0x1e, 0xe8,
        0x46, 0xed,
    ];
    assert!(Client::piece_hash_is_correct(&piece, digest));
    assert!(!Client::piece_hash_is_correct(&b"hello worle".to_vec(), digest));
    let mut other = digest;
    other[0] ^= 1;
    assert!(!Client::piece_hash_is_correct(&piece, other));
    let twenty = b"01234567890123456789".to_vec();
    assert!(!Client::piece_hash_is_correct(&twenty, *b"01234567890123456789"));
}

#[test]
fn client_checks_a_piece_against_the_descriptor() {
    let digest: [u8; 20] = [
        0x2a, 0xae, 0x6c, 0x35, 0xc9, 0x4f, 0xcf, 0xb4, 0x15, 0xdb, 0xe9, 0x5f, 0x40, 0x8b, 0x9c, 0xe9, 0x1e, 0xe8,
        0x46, 0xed,
    ];
    let mut info = Dict::new();
    info.insert(b"length".to_vec(), BencodeValue::Integer(11));
    info.insert(b"piece length".to_vec(), BencodeValue::Integer(16));
    info.insert(b"pieces".to_vec(), BencodeValue::String(digest.to_vec()));
    let mut top = Dict::new();
    top.insert(b"announce".to_vec(), BencodeValue::String(b"http://t".to_vec()));
    top.insert(b"info".to_vec(), BencodeValue::Dictionary(info));
    let torrent = TorrentFile::from_value(&BencodeValue::Dictionary(top)).unwrap();
    let info_hash = torrent.info_hash();
    let client = Client::new(torrent, Peer { ip_addr: [1, 2, 3, 4], port_number: 1 });

    assert_eq!(client.verify_piece(0, b"hello world".to_vec()), Ok(b"hello world".to_vec()));
    assert_eq!(client.verify_piece(0, b"hello w0rld".to_vec()), Err(ClientError::CorruptedPiece));
    assert_eq!(client.verify_piece(0, vec![]), Err(ClientError::CorruptedPiece));

    let mut session = client.session(0);
    assert_eq!(session.state(), SessionState::Connecting);
    assert_eq!(
        session.on_connected(),
        SessionAction::SendHandshake(Handshake::new(info_hash, *b"01234567890123456789").to_bytes())
    );
    session.on_handshake(&Handshake::new(info_hash, THEIR_ID).to_bytes());
    session.on_message(TorrentMessage::Bitfield { bitfield: vec![0x80] });
    assert_eq!(session.on_message(TorrentMessage::Unchoke), request(0, 0, 11));
}

#[test]
fn errors_have_texts() {
    assert_eq!(
        ClientError::CorruptedPiece.message(),
        "the piece downloaded has a different hash than expected"
    );
    assert_eq!(ClientError::Handshake.message(), "problem with handshake");
    assert_eq!(ClientError::Timeout.message(), "connection timeout");
    assert_eq!(ClientError::InvalidInput("x y".to_string()).message(), "input non valido: x y");
    assert_eq!(ClientError::BlockNotPresent(0).message(), "Peer doesen't have the block id 0");
    assert_eq!(ClientError::BlockNotPresent(1205).message(), "Peer doesen't have the block id 1205");
    assert_eq!(ClientError::Io("broken pipe".to_string()).message(), "broken pipe");
}
