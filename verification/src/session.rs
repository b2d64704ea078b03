//! One connection to one peer, as a state machine. The caller does the
//! reading and writing and reports what happened; the session decides what
//! is done next, keeps the blocks that arrive and hands out the piece once
//! none is missing.

use vstd::prelude::*;
use vstd::string::*;
use std::collections::HashSet;
use crate::client::{ClientError, ClientFault};
use crate::handshake::{spec_handshake_bytes, spec_parse_handshake, Handshake};
use crate::byte_string::push_all;
use crate::message::{bitfield_contains, bitfield_has, spec_frame, Message, TorrentMessage};

verus! {

broadcast use vstd::std_specs::hash::group_hash_axioms;

/// The number of bytes asked for in one request; only the last block of a
/// piece may be shorter.
pub const PAYLOAD_LENGTH: u32 = 16384;

/// How many blocks a piece of `piece_length` bytes is cut into.
pub open spec fn block_count(piece_length: u32) -> int {
    (piece_length + PAYLOAD_LENGTH - 1) / (PAYLOAD_LENGTH as int)
}

/// The length of block `index` of a piece of `piece_length` bytes: the
/// request length, or what is left of the piece when that is less.
pub open spec fn block_length(piece_length: u32, index: int) -> int {
    let rest = piece_length - index * PAYLOAD_LENGTH;
    if rest < PAYLOAD_LENGTH {
        rest
    } else {
        PAYLOAD_LENGTH as int
    }
}

/// The blocks as byte sequences; a block that has not arrived is `None`.
pub open spec fn blocks_view(blocks: Seq<Option<Vec<u8>>>) -> Seq<Option<Seq<u8>>> {
    Seq::new(
        blocks.len(),
        |i: int|
            match blocks[i] {
                Some(block) => Some(block@),
                None => None,
            },
    )
}

/// The indices of the blocks that have not arrived.
pub open spec fn missing_blocks(blocks: Seq<Option<Seq<u8>>>) -> Set<usize> {
    Set::new(|i: usize| i < blocks.len() && blocks[i as int] is None)
}

/// The first index at or after `from` whose block is missing, or the number
/// of blocks when none is.
pub open spec fn first_missing(blocks: Seq<Option<Seq<u8>>>, from: int) -> int
    decreases blocks.len() - from,
{
    if from < 0 || from >= blocks.len() {
        blocks.len() as int
    } else if blocks[from] is None {
        from
    } else {
        first_missing(blocks, from + 1)
    }
}

/// The blocks that have arrived, one after the other in index order.
pub open spec fn assembled(blocks: Seq<Option<Seq<u8>>>) -> Seq<u8>
    decreases blocks.len(),
{
    if blocks.len() == 0 {
        Seq::empty()
    } else {
        assembled(blocks.drop_last()) + (match blocks.last() {
            Some(block) => block,
            None => Seq::empty(),
        })
    }
}

/// `first_missing` gives the least missing index; it gives the number of
/// blocks exactly when the set of missing blocks is empty.
pub proof fn lemma_first_missing(blocks: Seq<Option<Seq<u8>>>, from: int)
    requires
        0 <= from <= blocks.len() <= usize::MAX,
    ensures
        from <= first_missing(blocks, from) <= blocks.len(),
        forall|j: int| from <= j < first_missing(blocks, from) ==> (#[trigger] blocks[j]) is Some,
        first_missing(blocks, from) < blocks.len() ==> blocks[first_missing(blocks, from)] is None,
        from == 0 ==> (first_missing(blocks, 0) == blocks.len() <==> missing_blocks(blocks) == Set::<usize>::empty()),
        from == 0 && first_missing(blocks, 0) < blocks.len() ==> missing_blocks(blocks).contains(
            first_missing(blocks, 0) as usize,
        ),
    decreases blocks.len() - from,
{
    if from < blocks.len() && blocks[from] is Some {
        lemma_first_missing(blocks, from + 1);
    }
    if from == 0 {
        let k = first_missing(blocks, 0);
        if k < blocks.len() {
            assert(missing_blocks(blocks).contains(k as usize));
        } else {
            assert(missing_blocks(blocks) =~= Set::<usize>::empty());
        }
    }
}

/// Puts the blocks that are there one after the other.
pub fn assemble_blocks(blocks: &Vec<Option<Vec<u8>>>) -> (piece: Vec<u8>)
    ensures
        piece@ == assembled(blocks_view(blocks@)),
{
    let mut piece: Vec<u8> = Vec::new();
    let mut i: usize = 0;
    assert(blocks_view(blocks@).take(0) =~= Seq::<Option<Seq<u8>>>::empty());
    while i < blocks.len()
        invariant
            i <= blocks.len(),
            piece@ == assembled(blocks_view(blocks@).take(i as int)),
        decreases blocks.len() - i,
    {
        assert(blocks_view(blocks@).take(i + 1).drop_last() =~= blocks_view(blocks@).take(i as int));
        match &blocks[i] {
            Some(block) => {
                push_all(&mut piece, block.as_slice());
            },
            None => {},
        }
        i += 1;
    }
    assert(blocks_view(blocks@).take(blocks.len() as int) =~= blocks_view(blocks@));
    piece
}

/// Where a session stands, as its caller sees it.
#[derive(Debug, Clone, Copy, PartialEq, Eq)]
pub enum SessionState {
    /// Nothing was sent yet.
    Connecting,
    /// The handshake went out; the peer's answer is awaited.
    Handshaking,
    /// The peer has not said which pieces it holds, and chokes us.
    AwaitingBitfield,
    /// The peer holds the piece and chokes us: nothing is requested.
    Choked,
    /// The peer lets us request, but has not said which pieces it holds.
    Unchoked,
    /// The peer holds the piece and lets us request: blocks are asked for.
    Downloading(u32),
    /// The piece was handed out.
    Done,
    /// The session ended without the piece.
    Failed,
}

/// How far the connection has come.
#[derive(Debug, Clone, Copy, PartialEq, Eq)]
pub enum Phase {
    Connecting,
    Handshaking,
    Established,
    Done,
    Failed,
}

/// What the caller does next.
#[derive(Debug, PartialEq, Eq)]
pub enum SessionAction {
    /// Write these 68 bytes, read 68 bytes back and report them with
    /// `on_handshake`.
    SendHandshake(Vec<u8>),
    /// Write this request frame, read one frame and report its message with
    /// `on_message`.
    SendRequest(Vec<u8>),
    /// Read one frame and report its message with `on_message`.
    ReadFrame,
    /// The piece is complete: these are its bytes, still to be checked
    /// against the digest.
    Finished(Vec<u8>),
    /// The session is over, or refused what it was told.
    Fail(ClientError),
}

/// The mathematical value of a `SessionAction`.
pub ghost enum ActionModel {
    SendHandshake(Seq<u8>),
    SendRequest(Seq<u8>),
    ReadFrame,
    Finished(Seq<u8>),
    Fail(ClientFault),
}

impl View for SessionAction {
    type V = ActionModel;

    open spec fn view(&self) -> ActionModel {
        match self {
            SessionAction::SendHandshake(bytes) => ActionModel::SendHandshake(bytes@),
            SessionAction::SendRequest(bytes) => ActionModel::SendRequest(bytes@),
            SessionAction::ReadFrame => ActionModel::ReadFrame,
            SessionAction::Finished(piece) => ActionModel::Finished(piece@),
            SessionAction::Fail(error) => ActionModel::Fail(error@),
        }
    }
}

/// The mathematical value of a `PeerSession`.
pub ghost struct SessionModel {
    pub phase: Phase,
    pub info_hash: Seq<u8>,
    pub peer_id: Seq<u8>,
    pub piece_id: u32,
    pub piece_length: u32,
    pub choked: bool,
    pub bitfield: Option<Seq<u8>>,
    pub blocks: Seq<Option<Seq<u8>>>,
    pub missing: Set<usize>,
}

impl SessionModel {
    /// There is one slot for each block of the piece, and the set of missing
    /// blocks holds the indices of the slots that are empty.
    pub open spec fn wf(self) -> bool {
        &&& self.blocks.len() == block_count(self.piece_length)
        &&& self.missing == missing_blocks(self.blocks)
        &&& self.info_hash.len() == 20
        &&& self.peer_id.len() == 20
    }

    /// The session as it is before anything has happened: choked, no
    /// bitfield, every block missing.
    pub open spec fn initial(info_hash: Seq<u8>, peer_id: Seq<u8>, piece_id: u32, piece_length: u32) -> SessionModel {
        SessionModel {
            phase: Phase::Connecting,
            info_hash,
            peer_id,
            piece_id,
            piece_length,
            choked: true,
            bitfield: None,
            blocks: Seq::new(block_count(piece_length) as nat, |i: int| None),
            missing: Set::new(|i: usize| i < block_count(piece_length)),
        }
    }

    /// The state that the caller sees.
    pub open spec fn state(self) -> SessionState {
        match self.phase {
            Phase::Connecting => SessionState::Connecting,
            Phase::Handshaking => SessionState::Handshaking,
            Phase::Established => match self.bitfield {
                None => if self.choked {
                    SessionState::AwaitingBitfield
                } else {
                    SessionState::Unchoked
                },
                Some(_) => if self.choked {
                    SessionState::Choked
                } else {
                    SessionState::Downloading(self.piece_id)
                },
            },
            Phase::Done => SessionState::Done,
            Phase::Failed => SessionState::Failed,
        }
    }

    /// The request for the first missing block: its offset in the piece and
    /// its length, which for the last block is what is left of the piece.
    pub open spec fn next_request(self) -> Message {
        let k = first_missing(self.blocks, 0);
        Message::Request {
            index: self.piece_id,
            begin: (k * PAYLOAD_LENGTH) as u32,
            length: block_length(self.piece_length, k) as u32,
        }
    }

    /// What an established session does next, in this order: with no block
    /// missing it hands out the piece and is done; with a bitfield that
    /// lacks the piece it fails; with a bitfield and not choked it requests
    /// the first missing block; otherwise it waits for the next frame.
    pub open spec fn decide(self) -> (SessionModel, ActionModel) {
        if first_missing(self.blocks, 0) == self.blocks.len() {
            (SessionModel { phase: Phase::Done, ..self }, ActionModel::Finished(assembled(self.blocks)))
        } else if self.bitfield is Some && !bitfield_has(self.bitfield->0, self.piece_id) {
            (
                SessionModel { phase: Phase::Failed, ..self },
                ActionModel::Fail(ClientFault::BlockNotPresent(self.piece_id as usize)),
            )
        } else if self.bitfield is Some && !self.choked {
            (self, ActionModel::SendRequest(spec_frame(self.next_request())))
        } else {
            (self, ActionModel::ReadFrame)
        }
    }

    /// The session after a message was taken in: the first bitfield is
    /// recorded and later ones are ignored, choke and unchoke set the flag, a
    /// block is stored at the index that its offset falls into, and that
    /// index leaves the set of missing blocks, if the piece has such a
    /// block, and every other message changes nothing.
    pub open spec fn absorb(self, message: Message) -> SessionModel {
        match message {
            Message::Bitfield { bitfield } => if self.bitfield is None {
                SessionModel { bitfield: Some(bitfield), ..self }
            } else {
                self
            },
            Message::Choke => SessionModel { choked: true, ..self },
            Message::Unchoke => SessionModel { choked: false, ..self },
            Message::Piece { index, begin, block } => {
                let k = begin as int / PAYLOAD_LENGTH as int;
                if k < self.blocks.len() {
                    SessionModel {
                        blocks: self.blocks.update(k, Some(block)),
                        missing: self.missing.remove(k as usize),
                        ..self
                    }
                } else {
                    self
                }
            },
            _ => self,
        }
    }

    /// What is said of an event that the session cannot take in its phase.
    pub open spec fn refusal() -> ActionModel {
        ActionModel::Fail(ClientFault::InvalidInput("event out of order"@))
    }

    /// The transport is up: the handshake goes out.
    pub open spec fn connected(self) -> (SessionModel, ActionModel) {
        if self.phase is Connecting {
            (
                SessionModel { phase: Phase::Handshaking, ..self },
                ActionModel::SendHandshake(spec_handshake_bytes(self.info_hash, self.peer_id)),
            )
        } else {
            (self, Self::refusal())
        }
    }

    /// The peer's 68 bytes came back: if they name the content, frames are
    /// read from now on, else the session fails.
    pub open spec fn handshaken(self, reply: Seq<u8>) -> (SessionModel, ActionModel) {
        if self.phase is Handshaking {
            if spec_parse_handshake(reply, self.info_hash) is Some {
                SessionModel { phase: Phase::Established, ..self }.decide()
            } else {
                (SessionModel { phase: Phase::Failed, ..self }, ActionModel::Fail(ClientFault::Handshake))
            }
        } else {
            (self, Self::refusal())
        }
    }

    /// A frame came in.
    pub open spec fn received(self, message: Message) -> (SessionModel, ActionModel) {
        if self.phase is Established {
            self.absorb(message).decide()
        } else {
            (self, Self::refusal())
        }
    }

    /// The transport gave up: the session fails with `fault`, unless it was
    /// over already.
    pub open spec fn broken(self, fault: ClientFault) -> (SessionModel, ActionModel) {
        if self.phase is Done || self.phase is Failed {
            (self, Self::refusal())
        } else {
            (SessionModel { phase: Phase::Failed, ..self }, ActionModel::Fail(fault))
        }
    }
}

/// Nothing is requested while the peer chokes us, nor before it has said
/// which pieces it holds, however many blocks are missing.
pub proof fn lemma_no_request_unless_allowed(s: SessionModel)
    ensures
        s.choked || s.bitfield is None ==> !(s.decide().1 is SendRequest),
        s.decide().1 is SendRequest ==> !s.choked && s.bitfield is Some && bitfield_has(s.bitfield->0, s.piece_id),
{
}

/// A request asks for a block that is missing, and for no byte outside the
/// piece: the block starts at a multiple of the request length, is not
/// empty, is at most one request long and ends where the piece ends at the
/// latest.
pub proof fn lemma_request_is_for_a_missing_block(s: SessionModel)
    requires
        s.wf(),
        s.decide().1 is SendRequest,
    ensures
        s.missing.contains(first_missing(s.blocks, 0) as usize),
        s.decide().1 == ActionModel::SendRequest(spec_frame(s.next_request())),
        s.next_request() matches Message::Request { index, begin, length } && {
            &&& index == s.piece_id
            &&& begin == first_missing(s.blocks, 0) * PAYLOAD_LENGTH
            &&& 0 < length <= PAYLOAD_LENGTH
            &&& begin + length <= s.piece_length
        },
        s.decide().0 == s,
{
    lemma_first_missing(s.blocks, 0);
}

/// The piece is handed out exactly when no block is missing, and it is made
/// of the blocks in their order.
pub proof fn lemma_finished_when_nothing_is_missing(s: SessionModel)
    requires
        s.wf(),
    ensures
        s.decide().1 is Finished <==> s.missing == Set::<usize>::empty(),
        s.decide().1 is Finished ==> s.decide().1 == ActionModel::Finished(assembled(s.blocks)) && s.decide().0.phase
            is Done,
{
    lemma_first_missing(s.blocks, 0);
}

/// A message changes neither the piece that the session is for nor the
/// number of its blocks, and a block that has arrived stays.
pub proof fn lemma_absorb_keeps_blocks(s: SessionModel, message: Message)
    requires
        s.wf(),
    ensures
        s.absorb(message).wf(),
        s.absorb(message).piece_id == s.piece_id,
        s.absorb(message).piece_length == s.piece_length,
        s.absorb(message).missing.subset_of(s.missing),
{
    let after = s.absorb(message);
    assert(after.missing =~= missing_blocks(after.blocks));
}

/// A block that arrives for an offset inside the piece is no longer
/// missing, and no other block is touched.
pub proof fn lemma_block_arrives(s: SessionModel, index: u32, begin: u32, block: Seq<u8>)
    requires
        s.wf(),
        (begin as int) / (PAYLOAD_LENGTH as int) < s.blocks.len(),
    ensures
        ({
            let k = (begin as int) / (PAYLOAD_LENGTH as int);
            let after = s.absorb(Message::Piece { index, begin, block });
            &&& after.blocks == s.blocks.update(k, Some(block))
            &&& after.missing == s.missing.remove(k as usize)
            &&& after.wf()
        }),
{
    let k = (begin as int) / (PAYLOAD_LENGTH as int);
    let after = s.absorb(Message::Piece { index, begin, block });
    assert(after.missing =~= missing_blocks(after.blocks));
}

/// The first `k` blocks of a piece, each as long as it was asked for, are
/// together as long as the part of the piece that they cover.
proof fn lemma_assembled_prefix_length(piece_length: u32, blocks: Seq<Option<Seq<u8>>>, k: int)
    requires
        blocks.len() == block_count(piece_length),
        0 <= k <= blocks.len(),
        forall|i: int|
            0 <= i < blocks.len() ==> (#[trigger] blocks[i]) is Some && blocks[i]->0.len() == block_length(
                piece_length,
                i,
            ),
    ensures
        assembled(blocks.take(k)).len() == (if k * PAYLOAD_LENGTH <= piece_length {
            k * PAYLOAD_LENGTH
        } else {
            piece_length as int
        }),
    decreases k,
{
    if k == 0 {
        assert(blocks.take(0) =~= Seq::<Option<Seq<u8>>>::empty());
    } else {
        lemma_assembled_prefix_length(piece_length, blocks, k - 1);
        assert(blocks.take(k).drop_last() =~= blocks.take(k - 1));
        assert(blocks.take(k).last() == blocks[k - 1]);
    }
}

/// Where every block has arrived with the length that was asked for, the
/// piece that is handed out is as long as the piece is. (A peer may send
/// blocks of other lengths; the digest tells.)
pub proof fn lemma_assembled_length(piece_length: u32, blocks: Seq<Option<Seq<u8>>>)
    requires
        blocks.len() == block_count(piece_length),
        forall|i: int|
            0 <= i < blocks.len() ==> (#[trigger] blocks[i]) is Some && blocks[i]->0.len() == block_length(
                piece_length,
                i,
            ),
    ensures
        assembled(blocks).len() == piece_length,
{
    lemma_assembled_prefix_length(piece_length, blocks, blocks.len() as int);
    assert(blocks.take(blocks.len() as int) =~= blocks);
}

/// A session with one peer for one piece.
#[derive(Debug)]
pub struct PeerSession {
    phase: Phase,
    info_hash: [u8; 20],
    peer_id: [u8; 20],
    piece_id: u32,
    piece_length: u32,
    choked: bool,
    bitfield: Option<Vec<u8>>,
    blocks: Vec<Option<Vec<u8>>>,
    missing: HashSet<usize>,
}

impl View for PeerSession {
    type V = SessionModel;

    closed spec fn view(&self) -> SessionModel {
        SessionModel {
            phase: self.phase,
            info_hash: self.info_hash@,
            peer_id: self.peer_id@,
            piece_id: self.piece_id,
            piece_length: self.piece_length,
            choked: self.choked,
            bitfield: match self.bitfield {
                Some(bits) => Some(bits@),
                None => None,
            },
            blocks: blocks_view(self.blocks@),
            missing: self.missing@,
        }
    }
}

impl PeerSession {
    /// A session that has not connected yet, for piece `piece_id` of
    /// `piece_length` bytes of the content `info_hash`.
    pub fn new(info_hash: [u8; 20], peer_id: [u8; 20], piece_id: u32, piece_length: u32) -> (session: PeerSession)
        ensures
            session@ == SessionModel::initial(info_hash@, peer_id@, piece_id, piece_length),
            session@.wf(),
    {
        let count: usize = ((piece_length as u64 + (PAYLOAD_LENGTH as u64 - 1)) / (PAYLOAD_LENGTH as u64)) as usize;
        let mut blocks: Vec<Option<Vec<u8>>> = Vec::new();
        let mut missing: HashSet<usize> = HashSet::new();
        let mut i: usize = 0;
        assert(missing@ =~= Set::new(|j: usize| j < 0));
        while i < count
            invariant
                i <= count,
                blocks@.len() == i,
                forall|j: int| 0 <= j < i ==> (#[trigger] blocks@[j]) is None,
                missing@ == Set::new(|j: usize| j < i),
            decreases count - i,
        {
            blocks.push(None);
            missing.insert(i);
            assert(missing@ =~= Set::new(|j: usize| j < i + 1));
            i += 1;
        }
        let session = PeerSession {
            phase: Phase::Connecting,
            info_hash,
            peer_id,
            piece_id,
            piece_length,
            choked: true,
            bitfield: None,
            blocks,
            missing,
        };
        assert(session@.blocks =~= SessionModel::initial(info_hash@, peer_id@, piece_id, piece_length).blocks);
        assert(session@.missing =~= SessionModel::initial(info_hash@, peer_id@, piece_id, piece_length).missing);
        assert(session@.missing =~= missing_blocks(session@.blocks));
        session
    }

    /// Where the session stands.
    pub fn state(&self) -> (state: SessionState)
        ensures
            state == self@.state(),
    {
        match self.phase {
            Phase::Connecting => SessionState::Connecting,
            Phase::Handshaking => SessionState::Handshaking,
            Phase::Established => match &self.bitfield {
                None => if self.choked {
                    SessionState::AwaitingBitfield
                } else {
                    SessionState::Unchoked
                },
                Some(_) => if self.choked {
                    SessionState::Choked
                } else {
                    SessionState::Downloading(self.piece_id)
                },
            },
            Phase::Done => SessionState::Done,
            Phase::Failed => SessionState::Failed,
        }
    }

    /// The index of the first block that has not arrived: the least index
    /// that the set of missing blocks holds.
    pub fn next_missing(&self) -> (found: Option<usize>)
        requires
            self@.wf(),
        ensures
            match found {
                Some(k) => k == first_missing(self@.blocks, 0) && k < self@.blocks.len(),
                None => first_missing(self@.blocks, 0) == self@.blocks.len(),
            },
    {
        let mut i: usize = 0;
        while i < self.blocks.len()
            invariant
                i <= self.blocks.len(),
                first_missing(self@.blocks, 0) == first_missing(self@.blocks, i as int),
                self@.wf(),
            decreases self.blocks.len() - i,
        {
            assert(self@.missing.contains(i) <==> self@.blocks[i as int] is None);
            if self.missing.contains(&i) {
                return Some(i);
            }
            i += 1;
        }
        None
    }

    fn refuse() -> (action: SessionAction)
        ensures
            action@ == SessionModel::refusal(),
    {
        SessionAction::Fail(ClientError::InvalidInput(String::from_str("event out of order")))
    }

    fn decide(&mut self) -> (action: SessionAction)
        requires
            old(self)@.wf(),
        ensures
            (final(self)@, action@) == old(self)@.decide(),
            final(self)@.wf(),
    {
        match self.next_missing() {
            None => {
                self.phase = Phase::Done;
                SessionAction::Finished(assemble_blocks(&self.blocks))
            },
            Some(k) => {
                let lacks = match &self.bitfield {
                    Some(bits) => !bitfield_contains(bits.as_slice(), self.piece_id),
                    None => false,
                };
                if lacks {
                    self.phase = Phase::Failed;
                    SessionAction::Fail(ClientError::BlockNotPresent(self.piece_id as usize))
                } else if self.bitfield.is_some() && !self.choked {
                    let begin: u32 = (k as u32) * PAYLOAD_LENGTH;
                    let rest: u32 = self.piece_length - begin;
                    let length: u32 = if rest < PAYLOAD_LENGTH {
                        rest
                    } else {
                        PAYLOAD_LENGTH
                    };
                    let request = TorrentMessage::Request { index: self.piece_id, begin, length };
                    SessionAction::SendRequest(request.to_bytes())
                } else {
                    SessionAction::ReadFrame
                }
            },
        }
    }

    /// The transport is up.
    pub fn on_connected(&mut self) -> (action: SessionAction)
        requires
            old(self)@.wf(),
        ensures
            (final(self)@, action@) == old(self)@.connected(),
            final(self)@.wf(),
    {
        match self.phase {
            Phase::Connecting => {
                self.phase = Phase::Handshaking;
                SessionAction::SendHandshake(Handshake::new(self.info_hash, self.peer_id).to_bytes())
            },
            _ => Self::refuse(),
        }
    }

    /// The peer's answer to the handshake was read; `reply` is what came,
    /// however short.
    pub fn on_handshake(&mut self, reply: &[u8]) -> (action: SessionAction)
        requires
            old(self)@.wf(),
        ensures
            (final(self)@, action@) == old(self)@.handshaken(reply@),
            final(self)@.wf(),
    {
        match self.phase {
            Phase::Handshaking => {
                match Handshake::parse(reply, &self.info_hash) {
                    Ok(_) => {
                        self.phase = Phase::Established;
                        self.decide()
                    },
                    Err(_) => {
                        self.phase = Phase::Failed;
                        SessionAction::Fail(ClientError::Handshake)
                    },
                }
            },
            _ => Self::refuse(),
        }
    }

    /// A frame was read and held `message`.
    pub fn on_message(&mut self, message: TorrentMessage) -> (action: SessionAction)
        requires
            old(self)@.wf(),
        ensures
            (final(self)@, action@) == old(self)@.received(message@),
            final(self)@.wf(),
    {
        match self.phase {
            Phase::Established => {
                match message {
                    TorrentMessage::Bitfield { bitfield } => {
                        if self.bitfield.is_none() {
                            self.bitfield = Some(bitfield);
                        }
                    },
                    TorrentMessage::Choke => {
                        self.choked = true;
                    },
                    TorrentMessage::Unchoke => {
                        self.choked = false;
                    },
                    TorrentMessage::Piece { index, begin, block } => {
                        let k: usize = (begin / PAYLOAD_LENGTH) as usize;
                        if k < self.blocks.len() {
                            let ghost before = self@;
                            self.blocks.set(k, Some(block));
                            self.missing.remove(&k);
                            assert(self@.blocks =~= before.blocks.update(k as int, Some(block@)));
                            assert(self@.missing =~= missing_blocks(self@.blocks));
                        }
                    },
                    _ => {},
                }
                self.decide()
            },
            _ => Self::refuse(),
        }
    }

    /// The peer did not answer in time.
    pub fn on_timeout(&mut self) -> (action: SessionAction)
        requires
            old(self)@.wf(),
        ensures
            (final(self)@, action@) == old(self)@.broken(ClientFault::Timeout),
            final(self)@.wf(),
    {
        match self.phase {
            Phase::Done => Self::refuse(),
            Phase::Failed => Self::refuse(),
            _ => {
                self.phase = Phase::Failed;
                SessionAction::Fail(ClientError::Timeout)
            },
        }
    }

    /// Reading or writing failed; `text` says how.
    pub fn on_io_error(&mut self, text: String) -> (action: SessionAction)
        requires
            old(self)@.wf(),
        ensures
            (final(self)@, action@) == old(self)@.broken(ClientFault::Io(text@)),
            final(self)@.wf(),
    {
        match self.phase {
            Phase::Done => Self::refuse(),
            Phase::Failed => Self::refuse(),
            _ => {
                self.phase = Phase::Failed;
                SessionAction::Fail(ClientError::Io(text))
            },
        }
    }
}

} // verus!
