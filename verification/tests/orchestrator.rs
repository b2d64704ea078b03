use std::collections::HashSet;
use torrent_core::bencode::{BencodeValue, Dict};
use torrent_core::handshake::Handshake;
use torrent_core::hash::sha1_of;
use torrent_core::message::{frame_length, TorrentMessage};
use torrent_core::orchestrator::{Orchestrator, Outcome, PeerStatus, PieceStatus, RunStatus};
use torrent_core::session::{PeerSession, SessionAction};
use torrent_core::storage::{parse_checkpoint, plan_write, StorageOp};
use torrent_core::torrent_file::TorrentFile;
use torrent_core::tracker::Peer;

const H0: [u8; 20] = [
    0x05, 0xce, 0x0a, 0xbc, 0x2e, 0x37, 0x76, 0x6e, 0xe8, 0x61, 0xfb, 0xf8, 0xe2, 0x4e, 0x42, 0xce, 0xb3, 0x22, 0xc7,
    0xbe,
];
const H1: [u8; 20] = [
    0x6f, 0x0f, 0x19, 0xf2, 0x99, 0xb4, 0x05, 0xdb, 0xab, 0xf5, 0xcc, 0x11, 0x84, 0x62, 0xae, 0x64, 0x99, 0x3c, 0xba,
    0x8b,
];
const G1: [u8; 20] = [
    0x97, 0xb1, 0xd2, 0x88, 0x41, 0xe8, 0x79, 0x23, 0xef, 0xf7, 0x08, 0xfe, 0x6b, 0x50, 0x5b, 0xb9, 0x97, 0x2d, 0xf2,
    0x87,
];

fn reference(length: usize) -> Vec<u8> {
    (0..length).map(|i| ((i * 31 + 7) % 251) as u8).collect()
}

fn descriptor(total: i64, checksums: &[[u8; 20]]) -> TorrentFile {
    let mut pieces = Vec::new();
    for c in checksums {
        pieces.extend_from_slice(c);
    }
    let mut info = Dict::new();
    info.insert(b"length".to_vec(), BencodeValue::Integer(total));
    info.insert(b"piece length".to_vec(), BencodeValue::Integer(32768));
    info.insert(b"pieces".to_vec(), BencodeValue::String(pieces));
    let mut top = Dict::new();
    top.insert(b"announce".to_vec(), BencodeValue::String(b"http://tracker.test".to_vec()));
    top.insert(b"info".to_vec(), BencodeValue::Dictionary(info));
    TorrentFile::from_value(&BencodeValue::Dictionary(top)).unwrap()
}

fn peers(n: u8) -> Vec<Peer> {
    (0..n).map(|i| Peer { ip_addr: [10, 0, 0, i], port_number: 6881 }).collect()
}

fn none() -> HashSet<usize> {
    HashSet::new()
}

/// A peer that claims every piece, unchokes at once and answers every
/// request with the bytes of the reference buffer.
struct FakePeer {
    content: Vec<u8>,
    piece_length: usize,
    info_hash: [u8; 20],
    greeted: bool,
}

impl FakePeer {
    fn handshake(&self) -> Vec<u8> {
        Handshake::new(self.info_hash, [0x50u8; 20]).to_bytes()
    }

    fn answer(&mut self, frame: &[u8]) -> TorrentMessage {
        assert_eq!(frame_length(&frame[..4]) as usize, frame.len() - 4);
        match TorrentMessage::read(&frame[4..]) {
            TorrentMessage::Request { index, begin, length } => {
                let start = index as usize * self.piece_length + begin as usize;
                let block = self.content[start..start + length as usize].to_vec();
                TorrentMessage::Piece { index, begin, block }
            }
            other => panic!("unexpected frame {:?}", other),
        }
    }

    fn next_unasked(&mut self) -> TorrentMessage {
        if self.greeted {
            TorrentMessage::KeepAlive
        } else {
            self.greeted = true;
            TorrentMessage::Bitfield { bitfield: vec![0xff] }
        }
    }
}

/// Runs one session against the fake peer until it ends.
fn download(session: &mut PeerSession, peer: &mut FakePeer) -> Result<Vec<u8>, String> {
    let mut unchoked = false;
    let mut action = session.on_connected();
    loop {
        action = match action {
            SessionAction::SendHandshake(bytes) => {
                assert_eq!(bytes.len(), 68);
                session.on_handshake(&peer.handshake())
            }
            SessionAction::ReadFrame => {
                if peer.greeted && !unchoked {
                    unchoked = true;
                    session.on_message(TorrentMessage::Unchoke)
                } else {
                    let message = peer.next_unasked();
                    session.on_message(message)
                }
            }
            SessionAction::SendRequest(frame) => {
                let message = peer.answer(&frame);
                session.on_message(message)
            }
            SessionAction::Finished(piece) => return Ok(piece),
            SessionAction::Fail(error) => return Err(format!("{:?}", error)),
        };
    }
}

#[test]
fn two_pieces_from_a_fake_peer_give_the_reference_file() {
    let content = reference(65536);
    let torrent = descriptor(65536, &[H0, H1]);
    let info_hash = torrent.info_hash();
    let sizes = [torrent.piece_size(0), torrent.piece_size(1)];
    let mut orchestrator = Orchestrator::new(torrent, peers(1), &none(), 4, 3);
    let mut file = vec![0u8; 65536];
    let mut log: Vec<u8> = Vec::new();

    while let Some((piece, peer)) = orchestrator.assign() {
        assert_eq!(orchestrator.status(), RunStatus::Running);
        let mut fake = FakePeer { content: content.clone(), piece_length: 32768, info_hash, greeted: false };
        let mut session = PeerSession::new(info_hash, *b"01234567890123456789", piece as u32, sizes[piece]);
        let bytes = download(&mut session, &mut fake).unwrap();
        match orchestrator.piece_downloaded(peer, bytes) {
            Outcome::Store { piece_id, bytes } => {
                for op in plan_write(vec![(piece_id, bytes)], 32768) {
                    match op {
                        StorageOp::WriteData { offset, bytes } => {
                            file[offset as usize..offset as usize + bytes.len()].copy_from_slice(&bytes)
                        }
                        StorageOp::AppendCheckpoint { entries } => log.extend_from_slice(&entries),
                        StorageOp::SyncData => {}
                        StorageOp::SyncCheckpoint => {}
                    }
                }
            }
            other => panic!("unexpected outcome {:?}", other),
        }
    }
    assert!(orchestrator.is_finished());
    assert_eq!(orchestrator.status(), RunStatus::Finished);
    assert_eq!(file, content);
    let expected: HashSet<usize> = [0usize, 1usize].into_iter().collect();
    assert_eq!(parse_checkpoint(&log), expected);
}

#[test]
fn short_last_piece_is_downloaded_whole() {
    let content = reference(40000);
    let torrent = descriptor(40000, &[H0, G1]);
    let info_hash = torrent.info_hash();
    let size = torrent.piece_size(1);
    assert_eq!(size, 7232);
    let mut fake = FakePeer { content: content.clone(), piece_length: 32768, info_hash, greeted: false };
    let mut session = PeerSession::new(info_hash, [1u8; 20], 1, size);
    let bytes = download(&mut session, &mut fake).unwrap();
    assert_eq!(bytes, content[32768..].to_vec());
    assert_eq!(sha1_of(&bytes), G1);
}

#[test]
fn corrupted_piece_is_queued_again_and_never_complete() {
    let mut orchestrator = Orchestrator::new(descriptor(65536, &[H0, H1]), peers(2), &none(), 2, 3);
    assert_eq!(orchestrator.assign(), Some((0, 0)));
    let mut bad = reference(32768);
    bad[100] ^= 0xff;
    assert_eq!(orchestrator.piece_downloaded(0, bad), Outcome::Retry { piece_id: 0 });
    assert_eq!(orchestrator.piece_status(0), PieceStatus::Pending);
    assert_eq!(orchestrator.peer_status(0), PeerStatus::Idle);
    assert!(!orchestrator.is_finished());
    assert_eq!(orchestrator.status(), RunStatus::Running);

    assert_eq!(orchestrator.assign(), Some((0, 0)));
    let good = reference(32768);
    assert_eq!(orchestrator.piece_downloaded(0, good.clone()), Outcome::Store { piece_id: 0, bytes: good });
    assert_eq!(orchestrator.piece_status(0), PieceStatus::Complete);
}

#[test]
fn digest_of_another_piece_does_not_complete_this_one() {
    let mut orchestrator = Orchestrator::new(descriptor(65536, &[H0, H1]), peers(1), &none(), 1, 5);
    assert_eq!(orchestrator.assign(), Some((0, 0)));
    let second = reference(65536)[32768..].to_vec();
    assert_eq!(orchestrator.digest_arrived(0, &H1, second.clone()), Outcome::Retry { piece_id: 0 });
    assert_eq!(orchestrator.assign(), Some((0, 0)));
    assert_eq!(orchestrator.digest_arrived(0, &H0, vec![1, 2, 3]), Outcome::Store { piece_id: 0, bytes: vec![1, 2, 3] });
}

#[test]
fn retries_are_bounded() {
    let mut orchestrator = Orchestrator::new(descriptor(65536, &[H0, H1]), peers(1), &none(), 1, 2);
    assert_eq!(orchestrator.assign(), Some((0, 0)));
    assert_eq!(orchestrator.piece_downloaded(0, vec![0; 32768]), Outcome::Retry { piece_id: 0 });
    assert_eq!(orchestrator.assign(), Some((0, 0)));
    assert_eq!(orchestrator.piece_downloaded(0, vec![0; 32768]), Outcome::Unreachable { piece_id: 0 });
    assert_eq!(orchestrator.piece_status(0), PieceStatus::Abandoned);
    assert_eq!(orchestrator.status(), RunStatus::Failed);
    assert!(!orchestrator.is_finished());
    assert_eq!(orchestrator.assign(), Some((1, 0)));
}

#[test]
fn failed_session_drops_the_peer_and_requeues_the_piece() {
    let mut orchestrator = Orchestrator::new(descriptor(65536, &[H0, H1]), peers(2), &none(), 2, 3);
    assert_eq!(orchestrator.assign(), Some((0, 0)));
    assert_eq!(orchestrator.assign(), Some((1, 1)));
    assert_eq!(orchestrator.assign(), None);
    assert_eq!(orchestrator.busy(), 2);
    assert_eq!(orchestrator.session_failed(0), Outcome::Retry { piece_id: 0 });
    assert_eq!(orchestrator.peer_status(0), PeerStatus::Dropped);
    assert_eq!(orchestrator.piece_status(0), PieceStatus::Pending);
    assert_eq!(orchestrator.piece_status(1), PieceStatus::InFlight(1));
    assert_eq!(orchestrator.assign(), None);
    let second = reference(65536)[32768..].to_vec();
    assert_eq!(orchestrator.piece_downloaded(1, second.clone()), Outcome::Store { piece_id: 1, bytes: second });
    assert_eq!(orchestrator.assign(), Some((0, 1)));
    assert_eq!(orchestrator.session_failed(1), Outcome::Retry { piece_id: 0 });
    assert_eq!(orchestrator.status(), RunStatus::Failed);
    assert_eq!(orchestrator.assign(), None);
}

#[test]
fn reports_about_idle_peers_are_ignored() {
    let mut orchestrator = Orchestrator::new(descriptor(65536, &[H0, H1]), peers(2), &none(), 2, 3);
    assert_eq!(orchestrator.piece_downloaded(0, reference(32768)), Outcome::Ignored);
    assert_eq!(orchestrator.session_failed(1), Outcome::Ignored);
    assert_eq!(orchestrator.session_failed(7), Outcome::Ignored);
    assert_eq!(orchestrator.digest_arrived(9, &H0, vec![]), Outcome::Ignored);
    assert_eq!(orchestrator.piece_status(0), PieceStatus::Pending);
    assert_eq!(orchestrator.peer_status(1), PeerStatus::Idle);
}

#[test]
fn cap_on_concurrent_peers_is_kept() {
    let mut orchestrator = Orchestrator::new(descriptor(65536, &[H0, H1]), peers(3), &none(), 1, 3);
    assert_eq!(orchestrator.assign(), Some((0, 0)));
    assert_eq!(orchestrator.assign(), None);
    assert_eq!(orchestrator.busy(), 1);
    let mut none_allowed = Orchestrator::new(descriptor(65536, &[H0, H1]), peers(3), &none(), 0, 3);
    assert_eq!(none_allowed.assign(), None);
}

#[test]
fn checkpointed_pieces_are_not_downloaded_again() {
    let done: HashSet<usize> = [0usize, 5usize].into_iter().collect();
    let mut orchestrator = Orchestrator::new(descriptor(65536, &[H0, H1]), peers(2), &done, 2, 3);
    assert_eq!(orchestrator.piece_status(0), PieceStatus::Complete);
    assert_eq!(orchestrator.piece_status(1), PieceStatus::Pending);
    assert_eq!(orchestrator.assign(), Some((1, 0)));
    assert_eq!(orchestrator.assign(), None);
    assert_eq!(orchestrator.endpoint(1), Peer { ip_addr: [10, 0, 0, 1], port_number: 6881 });
    assert_eq!(orchestrator.descriptor().piece_total(), 2);

    let all: HashSet<usize> = [0usize, 1usize].into_iter().collect();
    let finished = Orchestrator::new(descriptor(65536, &[H0, H1]), peers(0), &all, 2, 3);
    assert!(finished.is_finished());
    assert_eq!(finished.status(), RunStatus::Finished);
}

#[test]
fn no_peers_means_failure() {
    let orchestrator = Orchestrator::new(descriptor(65536, &[H0, H1]), peers(0), &none(), 2, 3);
    assert_eq!(orchestrator.status(), RunStatus::Failed);
}
