//! One client for one peer: what it knows of the torrent and of the peer,
//! and how a piece is put together and checked.

use vstd::prelude::*;
use vstd::string::*;
use crate::handshake::Handshake;
use crate::hash::{sha1_hash, sha1_matches};
use crate::session::{assemble_blocks, assembled, blocks_view, PeerSession, SessionModel};
use crate::text::{append_decimal, spec_decimal_text};
use crate::torrent_file::{TorrentFile, TorrentModel};
use crate::tracker::{Peer, PeerModel};

verus! {

/// What can go wrong between this client and a peer.
#[derive(Debug, Clone, PartialEq, Eq)]
pub enum ClientError {
    /// The piece that was downloaded does not have the digest that the
    /// descriptor gives for it.
    CorruptedPiece,
    /// The peer's handshake was short or named other content.
    Handshake,
    /// The peer did not answer in time.
    Timeout,
    /// The session was handed something that it cannot take in its state.
    InvalidInput(String),
    /// The peer does not hold the piece with this index.
    BlockNotPresent(usize),
    /// Reading from or writing to the peer failed; the text says how.
    Io(String),
}

/// The mathematical value of a `ClientError`.
pub ghost enum ClientFault {
    CorruptedPiece,
    Handshake,
    Timeout,
    InvalidInput(Seq<char>),
    BlockNotPresent(usize),
    Io(Seq<char>),
}

impl View for ClientError {
    type V = ClientFault;

    open spec fn view(&self) -> ClientFault {
        match self {
            ClientError::CorruptedPiece => ClientFault::CorruptedPiece,
            ClientError::Handshake => ClientFault::Handshake,
            ClientError::Timeout => ClientFault::Timeout,
            ClientError::InvalidInput(text) => ClientFault::InvalidInput(text@),
            ClientError::BlockNotPresent(piece) => ClientFault::BlockNotPresent(*piece),
            ClientError::Io(text) => ClientFault::Io(text@),
        }
    }
}

/// The text that tells a user of the error.
pub open spec fn spec_message(fault: ClientFault) -> Seq<char> {
    match fault {
        ClientFault::CorruptedPiece => "the piece downloaded has a different hash than expected"@,
        ClientFault::Handshake => "problem with handshake"@,
        ClientFault::Timeout => "connection timeout"@,
        ClientFault::InvalidInput(text) => "input non valido: "@ + text,
        ClientFault::BlockNotPresent(piece) => "Peer doesen't have the block id "@ + spec_decimal_text(piece as nat),
        ClientFault::Io(text) => text,
    }
}

impl ClientError {
    /// The text that tells a user of the error.
    pub fn message(&self) -> (text: String)
        ensures
            text@ == spec_message(self@),
    {
        match self {
            ClientError::CorruptedPiece => String::from_str(
                "the piece downloaded has a different hash than expected",
            ),
            ClientError::Handshake => String::from_str("problem with handshake"),
            ClientError::Timeout => String::from_str("connection timeout"),
            ClientError::InvalidInput(text) => String::from_str("input non valido: ").concat(text.as_str()),
            ClientError::BlockNotPresent(piece) => {
                let mut out = String::from_str("Peer doesen't have the block id ");
                append_decimal(&mut out, *piece as u64);
                out
            },
            ClientError::Io(text) => text.clone(),
        }
    }
}

/// The id under which this client presents itself: the ASCII digits `0` to
/// `9`, twice.
pub open spec fn default_peer_id() -> Seq<u8> {
    Seq::new(20, |i: int| (0x30 + i % 10) as u8)
}

/// A client for one torrent and one peer.
#[derive(Debug)]
pub struct Client {
    torrent_file: TorrentFile,
    peer: Peer,
    client_peer_id: [u8; 20],
}

/// The mathematical value of a `Client`.
pub ghost struct ClientModel {
    pub torrent: TorrentModel,
    pub peer: PeerModel,
    pub peer_id: Seq<u8>,
}

impl View for Client {
    type V = ClientModel;

    closed spec fn view(&self) -> ClientModel {
        ClientModel { torrent: self.torrent_file@, peer: self.peer@, peer_id: self.client_peer_id@ }
    }
}

impl Client {
    /// A client that downloads `torrent_file` from `peer`.
    pub fn new(torrent_file: TorrentFile, peer: Peer) -> (client: Client)
        ensures
            client@ == (ClientModel { torrent: torrent_file@, peer: peer@, peer_id: default_peer_id() }),
    {
        let mut client_peer_id: [u8; 20] = [0u8; 20];
        let mut i: usize = 0;
        while i < 20
            invariant
                i <= 20,
                forall|j: int| 0 <= j < i ==> client_peer_id@[j] == (0x30 + j % 10) as u8,
            decreases 20 - i,
        {
            client_peer_id[i] = 0x30 + (i % 10) as u8;
            i += 1;
        }
        assert(client_peer_id@ =~= default_peer_id());
        Client { torrent_file, peer, client_peer_id }
    }

    /// The descriptor of the content.
    pub fn torrent_file(&self) -> (torrent_file: &TorrentFile)
        ensures
            torrent_file@ == self@.torrent,
    {
        &self.torrent_file
    }

    /// The peer that this client talks to.
    pub fn peer(&self) -> (peer: Peer)
        ensures
            peer@ == self@.peer,
    {
        self.peer
    }

    /// The id under which this client presents itself.
    pub fn client_peer_id(&self) -> (id: [u8; 20])
        ensures
            id@ == self@.peer_id,
    {
        self.client_peer_id
    }

    /// The handshake that this client opens a connection with.
    pub fn handshake(&self) -> (h: Handshake)
        ensures
            h.info_hash@ == self@.torrent.info_hash,
            h.peer_id@ == self@.peer_id,
    {
        Handshake::new(self.torrent_file.info_hash(), self.client_peer_id)
    }

    /// A session that downloads piece `piece_id`, which is as long as the
    /// descriptor says.
    pub fn session(&self, piece_id: u32) -> (session: PeerSession)
        requires
            self@.torrent.wf(),
            piece_id < self@.torrent.pieces.len(),
        ensures
            session@ == SessionModel::initial(
                self@.torrent.info_hash,
                self@.peer_id,
                piece_id,
                self@.torrent.piece_size(piece_id as int) as u32,
            ),
            session@.wf(),
    {
        let piece_length = self.torrent_file.piece_size(piece_id as usize);
        PeerSession::new(self.torrent_file.info_hash(), self.client_peer_id, piece_id, piece_length)
    }

    /// The piece that the blocks make up: those that have arrived, one
    /// after the other. The blocks are left as they are.
    pub fn build_piece_from_blocks(&self, downloaded_blocks: &mut Vec<Option<Vec<u8>>>) -> (piece: Vec<u8>)
        ensures
            piece@ == assembled(blocks_view(old(downloaded_blocks)@)),
            *final(downloaded_blocks) == *old(downloaded_blocks),
    {
        assemble_blocks(downloaded_blocks)
    }

    /// Whether `piece` has the SHA-1 digest `checksum`.
    pub fn piece_hash_is_correct(piece: &Vec<u8>, checksum: [u8; 20]) -> (correct: bool)
        ensures
            correct == (sha1_hash(piece@) == checksum@),
    {
        sha1_matches(piece.as_slice(), &checksum)
    }

    /// Checks a piece that a session handed out against the descriptor: the
    /// piece comes back if its digest is the one given for `piece_id`, and
    /// is dropped as corrupted if not.
    pub fn verify_piece(&self, piece_id: u32, piece: Vec<u8>) -> (r: Result<Vec<u8>, ClientError>)
        requires
            piece_id < self@.torrent.pieces.len(),
        ensures
            match r {
                Ok(checked) => checked@ == piece@ && sha1_hash(piece@) == self@.torrent.pieces[piece_id as int],
                Err(e) => e is CorruptedPiece && sha1_hash(piece@) != self@.torrent.pieces[piece_id as int],
            },
    {
        if Self::piece_hash_is_correct(&piece, self.torrent_file.checksum(piece_id as usize)) {
            Ok(piece)
        } else {
            Err(ClientError::CorruptedPiece)
        }
    }
}

} // verus!
