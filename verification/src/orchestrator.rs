//! The scheduler of a download: which piece goes to which peer, what is
//! done with a piece that came back, and when the download is over. The
//! caller runs the sessions and the storage and reports what happened.

use vstd::prelude::*;
use std::collections::HashSet;
use crate::hash::{digest_equal, sha1_hash, sha1_of};
use crate::torrent_file::{TorrentFile, TorrentModel};
use crate::tracker::{peers_view, Peer, PeerModel};

verus! {

broadcast use vstd::std_specs::hash::group_hash_axioms;

/// Where a piece stands.
#[derive(Debug, Clone, Copy, PartialEq, Eq)]
pub enum PieceStatus {
    /// Nobody is working on the piece.
    Pending,
    /// The peer with this index is working on the piece.
    InFlight(usize),
    /// The piece was checked and handed to storage.
    Complete,
    /// The piece failed as often as it may.
    Abandoned,
}

/// Where a peer stands.
#[derive(Debug, Clone, Copy, PartialEq, Eq)]
pub enum PeerStatus {
    /// The peer has nothing to do.
    Idle,
    /// The peer is working on the piece with this index.
    Busy(usize),
    /// A session with the peer failed; it is not used again.
    Dropped,
}

/// What the caller does after it reported something.
#[derive(Debug, PartialEq, Eq)]
pub enum Outcome {
    /// The piece is good: write these bytes as the piece with this index.
    Store { piece_id: usize, bytes: Vec<u8> },
    /// The piece with this index goes back to those not assigned.
    Retry { piece_id: usize },
    /// The piece with this index failed as often as it may: the download
    /// cannot be completed.
    Unreachable { piece_id: usize },
    /// The report was about a peer that was not working on anything.
    Ignored,
}

/// The mathematical value of an `Outcome`.
pub ghost enum OutcomeModel {
    Store { piece_id: usize, bytes: Seq<u8> },
    Retry { piece_id: usize },
    Unreachable { piece_id: usize },
    Ignored,
}

impl View for Outcome {
    type V = OutcomeModel;

    open spec fn view(&self) -> OutcomeModel {
        match self {
            Outcome::Store { piece_id, bytes } => OutcomeModel::Store { piece_id: *piece_id, bytes: bytes@ },
            Outcome::Retry { piece_id } => OutcomeModel::Retry { piece_id: *piece_id },
            Outcome::Unreachable { piece_id } => OutcomeModel::Unreachable { piece_id: *piece_id },
            Outcome::Ignored => OutcomeModel::Ignored,
        }
    }
}

/// How a download stands as a whole.
#[derive(Debug, Clone, Copy, PartialEq, Eq)]
pub enum RunStatus {
    /// Every piece is complete.
    Finished,
    /// A piece was abandoned, or pieces are left and no peer can take them.
    Failed,
    /// There is work left that can be done.
    Running,
}

/// How many of `peers` are busy.
pub open spec fn busy_count(peers: Seq<PeerStatus>) -> nat
    decreases peers.len(),
{
    if peers.len() == 0 {
        0
    } else {
        busy_count(peers.drop_last()) + (if peers.last() is Busy { 1nat } else { 0nat })
    }
}

/// The first index at or after `from` whose piece is pending, or the number
/// of pieces.
pub open spec fn first_pending(pieces: Seq<PieceStatus>, from: int) -> int
    decreases pieces.len() - from,
{
    if from < 0 || from >= pieces.len() {
        pieces.len() as int
    } else if pieces[from] is Pending {
        from
    } else {
        first_pending(pieces, from + 1)
    }
}

/// The first index at or after `from` whose peer is idle, or the number of
/// peers.
pub open spec fn first_idle(peers: Seq<PeerStatus>, from: int) -> int
    decreases peers.len() - from,
{
    if from < 0 || from >= peers.len() {
        peers.len() as int
    } else if peers[from] is Idle {
        from
    } else {
        first_idle(peers, from + 1)
    }
}

/// The mathematical value of an `Orchestrator`.
pub ghost struct OrchestratorModel {
    pub torrent: TorrentModel,
    pub pieces: Seq<PieceStatus>,
    pub attempts: Seq<u32>,
    pub peers: Seq<PeerStatus>,
    pub endpoints: Seq<PeerModel>,
    pub max_peers: usize,
    pub max_attempts: u32,
}

impl OrchestratorModel {
    /// There is a status for every piece and every peer; a piece is in
    /// flight with a peer exactly when that peer is busy with that piece, so
    /// no piece is with two peers and no peer has two pieces; and no more
    /// peers are busy than may be.
    pub open spec fn wf(self) -> bool {
        &&& self.torrent.wf()
        &&& self.pieces.len() <= usize::MAX
        &&& self.peers.len() <= usize::MAX
        &&& self.pieces.len() == self.torrent.pieces.len()
        &&& self.attempts.len() == self.pieces.len()
        &&& self.peers.len() == self.endpoints.len()
        &&& forall|i: int|
            0 <= i < self.pieces.len() && (#[trigger] self.pieces[i]) is InFlight ==> {
                let p = self.pieces[i]->InFlight_0;
                p < self.peers.len() && self.peers[p as int] == PeerStatus::Busy(i as usize)
            }
        &&& forall|p: int|
            0 <= p < self.peers.len() && (#[trigger] self.peers[p]) is Busy ==> {
                let i = self.peers[p]->Busy_0;
                i < self.pieces.len() && self.pieces[i as int] == PieceStatus::InFlight(p as usize)
            }
        &&& busy_count(self.peers) <= self.max_peers
    }

    /// The pieces that are complete.
    pub open spec fn completed(self) -> Set<int> {
        Set::new(|i: int| 0 <= i < self.pieces.len() && self.pieces[i] is Complete)
    }

    /// Every piece is complete.
    pub open spec fn finished(self) -> bool {
        forall|i: int| 0 <= i < self.pieces.len() ==> (#[trigger] self.pieces[i]) is Complete
    }

    /// The state at the start: the pieces that the checkpoint names are
    /// complete, the others pending, and every peer is idle.
    pub open spec fn initial(
        torrent: TorrentModel,
        endpoints: Seq<PeerModel>,
        completed: Set<usize>,
        max_peers: usize,
        max_attempts: u32,
    ) -> OrchestratorModel {
        OrchestratorModel {
            torrent,
            pieces: Seq::new(
                torrent.pieces.len(),
                |i: int|
                    if completed.contains(i as usize) {
                        PieceStatus::Complete
                    } else {
                        PieceStatus::Pending
                    },
            ),
            attempts: Seq::new(torrent.pieces.len(), |i: int| 0u32),
            peers: Seq::new(endpoints.len(), |i: int| PeerStatus::Idle),
            endpoints,
            max_peers,
            max_attempts,
        }
    }

    /// The next assignment: the first pending piece goes to the first idle
    /// peer, if there are both and fewer peers are busy than may be.
    pub open spec fn assign(self) -> (OrchestratorModel, Option<(usize, usize)>) {
        let piece = first_pending(self.pieces, 0);
        let peer = first_idle(self.peers, 0);
        if busy_count(self.peers) < self.max_peers && piece < self.pieces.len() && peer < self.peers.len() {
            (
                OrchestratorModel {
                    pieces: self.pieces.update(piece, PieceStatus::InFlight(peer as usize)),
                    peers: self.peers.update(peer, PeerStatus::Busy(piece as usize)),
                    ..self
                },
                Some((piece as usize, peer as usize)),
            )
        } else {
            (self, None)
        }
    }

    /// The piece `piece` failed once more and `peer` is left in the state
    /// `after`: the piece is pending again, unless it has now failed as
    /// often as it may, in which case it is abandoned.
    pub open spec fn requeue(self, piece: int, peer: int, after: PeerStatus) -> (OrchestratorModel, OutcomeModel) {
        let failed: u32 = if self.attempts[piece] < u32::MAX {
            (self.attempts[piece] + 1) as u32
        } else {
            self.attempts[piece]
        };
        let abandoned = failed >= self.max_attempts;
        (
            OrchestratorModel {
                pieces: self.pieces.update(
                    piece,
                    if abandoned {
                        PieceStatus::Abandoned
                    } else {
                        PieceStatus::Pending
                    },
                ),
                attempts: self.attempts.update(piece, failed),
                peers: self.peers.update(peer, after),
                ..self
            },
            if abandoned {
                OutcomeModel::Unreachable { piece_id: piece as usize }
            } else {
                OutcomeModel::Retry { piece_id: piece as usize }
            },
        )
    }

    /// The session of `peer` handed out `bytes`, whose digest is `digest`.
    /// If the digest is the one that the descriptor gives for the piece, the
    /// piece is complete and goes to storage; if not, the bytes are dropped
    /// and the piece is queued again. Either way the peer is idle.
    pub open spec fn digest_arrived(self, peer: int, digest: Seq<u8>, bytes: Seq<u8>) -> (
        OrchestratorModel,
        OutcomeModel,
    ) {
        if 0 <= peer < self.peers.len() && self.peers[peer] is Busy {
            let piece = self.peers[peer]->Busy_0 as int;
            if digest == self.torrent.pieces[piece] {
                (
                    OrchestratorModel {
                        pieces: self.pieces.update(piece, PieceStatus::Complete),
                        peers: self.peers.update(peer, PeerStatus::Idle),
                        ..self
                    },
                    OutcomeModel::Store { piece_id: piece as usize, bytes },
                )
            } else {
                self.requeue(piece, peer, PeerStatus::Idle)
            }
        } else {
            (self, OutcomeModel::Ignored)
        }
    }

    /// The session of `peer` failed: the peer is dropped and its piece is
    /// queued again.
    pub open spec fn session_failed(self, peer: int) -> (OrchestratorModel, OutcomeModel) {
        if 0 <= peer < self.peers.len() && self.peers[peer] is Busy {
            self.requeue(self.peers[peer]->Busy_0 as int, peer, PeerStatus::Dropped)
        } else {
            (self, OutcomeModel::Ignored)
        }
    }

    /// How the download stands: finished when every piece is complete;
    /// failed when a piece was abandoned, or when no piece is in flight and
    /// no peer is idle although pieces are left; running otherwise.
    pub open spec fn status(self) -> RunStatus {
        if self.finished() {
            RunStatus::Finished
        } else if exists|i: int| 0 <= i < self.pieces.len() && (#[trigger] self.pieces[i]) is Abandoned {
            RunStatus::Failed
        } else if busy_count(self.peers) == 0 && first_idle(self.peers, 0) == self.peers.len() {
            RunStatus::Failed
        } else {
            RunStatus::Running
        }
    }
}

/// What changing the status of one peer does to the number of busy peers.
pub proof fn lemma_busy_count_update(peers: Seq<PeerStatus>, at: int, status: PeerStatus)
    requires
        0 <= at < peers.len(),
    ensures
        busy_count(peers.update(at, status)) + (if peers[at] is Busy { 1nat } else { 0nat }) == busy_count(peers) + (if status is Busy {
            1nat
        } else {
            0nat
        }),
    decreases peers.len(),
{
    let after = peers.update(at, status);
    if at == peers.len() - 1 {
        assert(after.drop_last() =~= peers.drop_last());
    } else {
        lemma_busy_count_update(peers.drop_last(), at, status);
        assert(after.drop_last() =~= peers.drop_last().update(at, status));
    }
}

/// With no peer busy, none is counted, and the other way round.
pub proof fn lemma_busy_count_zero(peers: Seq<PeerStatus>)
    ensures
        busy_count(peers) == 0 <==> (forall|p: int| 0 <= p < peers.len() ==> !((#[trigger] peers[p]) is Busy)),
    decreases peers.len(),
{
    if peers.len() > 0 {
        lemma_busy_count_zero(peers.drop_last());
        if busy_count(peers) == 0 {
            assert forall|p: int| 0 <= p < peers.len() implies !((#[trigger] peers[p]) is Busy) by {
                if p < peers.len() - 1 {
                    assert(peers.drop_last()[p] == peers[p]);
                }
            }
        } else {
            if !(peers.last() is Busy) {
                let p = choose|p: int| 0 <= p < peers.drop_last().len() && (#[trigger] peers.drop_last()[p]) is Busy;
                assert(peers[p] == peers.drop_last()[p]);
            }
        }
    }
}

/// `first_pending` gives the least pending piece.
pub proof fn lemma_first_pending(pieces: Seq<PieceStatus>, from: int)
    requires
        0 <= from <= pieces.len(),
    ensures
        from <= first_pending(pieces, from) <= pieces.len(),
        forall|j: int| from <= j < first_pending(pieces, from) ==> !((#[trigger] pieces[j]) is Pending),
        first_pending(pieces, from) < pieces.len() ==> pieces[first_pending(pieces, from)] is Pending,
    decreases pieces.len() - from,
{
    if from < pieces.len() && !(pieces[from] is Pending) {
        lemma_first_pending(pieces, from + 1);
    }
}

/// `first_idle` gives the least idle peer.
pub proof fn lemma_first_idle(peers: Seq<PeerStatus>, from: int)
    requires
        0 <= from <= peers.len(),
    ensures
        from <= first_idle(peers, from) <= peers.len(),
        forall|j: int| from <= j < first_idle(peers, from) ==> !((#[trigger] peers[j]) is Idle),
        first_idle(peers, from) < peers.len() ==> peers[first_idle(peers, from)] is Idle,
    decreases peers.len() - from,
{
    if from < peers.len() && !(peers[from] is Idle) {
        lemma_first_idle(peers, from + 1);
    }
}

/// An assignment keeps the state well formed, and gives a piece that nobody
/// was working on to a peer that had nothing to do.
pub proof fn lemma_assign(m: OrchestratorModel)
    requires
        m.wf(),
    ensures
        m.assign().0.wf(),
        m.assign().1 matches Some((piece, peer)) ==> {
            &&& piece < m.pieces.len()
            &&& peer < m.peers.len()
            &&& m.pieces[piece as int] is Pending
            &&& m.peers[peer as int] is Idle
            &&& m.assign().0.pieces[piece as int] == PieceStatus::InFlight(peer)
            &&& m.assign().0.completed() == m.completed()
        },
{
    lemma_first_pending(m.pieces, 0);
    lemma_first_idle(m.peers, 0);
    let piece = first_pending(m.pieces, 0);
    let peer = first_idle(m.peers, 0);
    if m.assign().1 is Some {
        lemma_busy_count_update(m.peers, peer, PeerStatus::Busy(piece as usize));
        assert(m.assign().0.completed() =~= m.completed());
    }
}

/// A report on a peer's work keeps the state well formed. A piece whose
/// digest is not the one that the descriptor gives is never marked
/// complete: it is queued again or abandoned, and the set of complete
/// pieces is what it was.
pub proof fn lemma_digest_arrived(m: OrchestratorModel, peer: int, digest: Seq<u8>, bytes: Seq<u8>)
    requires
        m.wf(),
    ensures
        m.digest_arrived(peer, digest, bytes).0.wf(),
        0 <= peer < m.peers.len() && m.peers[peer] is Busy ==> {
            let piece = m.peers[peer]->Busy_0 as int;
            let after = m.digest_arrived(peer, digest, bytes);
            &&& 0 <= piece < m.pieces.len()
            &&& digest == m.torrent.pieces[piece] ==> after.1 == (OutcomeModel::Store {
                piece_id: piece as usize,
                bytes,
            }) && after.0.completed() == m.completed().insert(piece)
            &&& digest != m.torrent.pieces[piece] ==> {
                &&& after.0.completed() == m.completed()
                &&& !(after.0.pieces[piece] is Complete)
                &&& after.0.pieces[piece] is Pending || after.0.pieces[piece] is Abandoned
                &&& after.1 is Retry || after.1 is Unreachable
            }
        },
{
    if 0 <= peer < m.peers.len() && m.peers[peer] is Busy {
        let piece = m.peers[peer]->Busy_0 as int;
        let after = m.digest_arrived(peer, digest, bytes).0;
        lemma_busy_count_update(m.peers, peer, PeerStatus::Idle);
        assert(m.pieces[piece] == PieceStatus::InFlight(peer as usize));
        if digest == m.torrent.pieces[piece] {
            assert(after.completed() =~= m.completed().insert(piece));
        } else {
            assert(after.completed() =~= m.completed());
        }
    }
}

/// A failed session keeps the state well formed and completes nothing.
pub proof fn lemma_session_failed(m: OrchestratorModel, peer: int)
    requires
        m.wf(),
    ensures
        m.session_failed(peer).0.wf(),
        m.session_failed(peer).0.completed() == m.completed(),
{
    if 0 <= peer < m.peers.len() && m.peers[peer] is Busy {
        let piece = m.peers[peer]->Busy_0 as int;
        lemma_busy_count_update(m.peers, peer, PeerStatus::Dropped);
        assert(m.pieces[piece] == PieceStatus::InFlight(peer as usize));
        assert(m.session_failed(peer).0.completed() =~= m.completed());
    }
}

/// The scheduler of one download.
#[derive(Debug)]
pub struct Orchestrator {
    descriptor: TorrentFile,
    pieces: Vec<PieceStatus>,
    attempts: Vec<u32>,
    peers: Vec<PeerStatus>,
    endpoints: Vec<Peer>,
    max_peers: usize,
    max_attempts: u32,
}

impl View for Orchestrator {
    type V = OrchestratorModel;

    closed spec fn view(&self) -> OrchestratorModel {
        OrchestratorModel {
            torrent: self.descriptor@,
            pieces: self.pieces@,
            attempts: self.attempts@,
            peers: self.peers@,
            endpoints: peers_view(self.endpoints@),
            max_peers: self.max_peers,
            max_attempts: self.max_attempts,
        }
    }
}

impl Orchestrator {
    /// A scheduler for the content of `descriptor` and the peers
    /// `endpoints`. The pieces that `completed` names are not downloaded
    /// again. At most `max_peers` peers work at a time, and a piece that has
    /// failed `max_attempts` times is given up.
    pub fn new(
        descriptor: TorrentFile,
        endpoints: Vec<Peer>,
        completed: &HashSet<usize>,
        max_peers: usize,
        max_attempts: u32,
    ) -> (orchestrator: Orchestrator)
        requires
            descriptor.wf(),
        ensures
            orchestrator@ == OrchestratorModel::initial(
                descriptor@,
                peers_view(endpoints@),
                completed@,
                max_peers,
                max_attempts,
            ),
            orchestrator@.wf(),
    {
        let total = descriptor.piece_total();
        let mut pieces: Vec<PieceStatus> = Vec::new();
        let mut attempts: Vec<u32> = Vec::new();
        let mut i: usize = 0;
        while i < total
            invariant
                i <= total,
                pieces@.len() == i,
                attempts@.len() == i,
                forall|j: int|
                    0 <= j < i ==> (#[trigger] pieces@[j]) == (if completed@.contains(j as usize) {
                        PieceStatus::Complete
                    } else {
                        PieceStatus::Pending
                    }),
                forall|j: int| 0 <= j < i ==> (#[trigger] attempts@[j]) == 0u32,
            decreases total - i,
        {
            if completed.contains(&i) {
                pieces.push(PieceStatus::Complete);
            } else {
                pieces.push(PieceStatus::Pending);
            }
            attempts.push(0);
            i += 1;
        }
        let mut peers: Vec<PeerStatus> = Vec::new();
        let mut p: usize = 0;
        while p < endpoints.len()
            invariant
                p <= endpoints.len(),
                peers@.len() == p,
                forall|j: int| 0 <= j < p ==> (#[trigger] peers@[j]) == PeerStatus::Idle,
            decreases endpoints.len() - p,
        {
            peers.push(PeerStatus::Idle);
            p += 1;
        }
        let orchestrator = Orchestrator { descriptor, pieces, attempts, peers, endpoints, max_peers, max_attempts };
        proof {
            let wanted = OrchestratorModel::initial(
                descriptor@,
                peers_view(endpoints@),
                completed@,
                max_peers,
                max_attempts,
            );
            assert(orchestrator@.pieces =~= wanted.pieces);
            assert(orchestrator@.attempts =~= wanted.attempts);
            assert(orchestrator@.peers =~= wanted.peers);
            lemma_busy_count_zero(orchestrator@.peers);
        }
        orchestrator
    }

    /// The descriptor of the content.
    pub fn descriptor(&self) -> (descriptor: &TorrentFile)
        ensures
            descriptor@ == self@.torrent,
    {
        &self.descriptor
    }

    /// Where the piece with index `piece_id` stands.
    pub fn piece_status(&self, piece_id: usize) -> (status: PieceStatus)
        requires
            piece_id < self@.pieces.len(),
        ensures
            status == self@.pieces[piece_id as int],
    {
        self.pieces[piece_id]
    }

    /// Where the peer with index `peer` stands.
    pub fn peer_status(&self, peer: usize) -> (status: PeerStatus)
        requires
            peer < self@.peers.len(),
        ensures
            status == self@.peers[peer as int],
    {
        self.peers[peer]
    }

    /// The address of the peer with index `peer`.
    pub fn endpoint(&self, peer: usize) -> (endpoint: Peer)
        requires
            peer < self@.endpoints.len(),
        ensures
            endpoint@ == self@.endpoints[peer as int],
    {
        self.endpoints[peer]
    }

    /// How many peers are busy.
    pub fn busy(&self) -> (n: usize)
        ensures
            n == busy_count(self@.peers),
    {
        let mut n: usize = 0;
        let mut p: usize = 0;
        assert(self.peers@.take(0) =~= Seq::<PeerStatus>::empty());
        while p < self.peers.len()
            invariant
                p <= self.peers.len(),
                n == busy_count(self.peers@.take(p as int)),
                n <= p,
            decreases self.peers.len() - p,
        {
            assert(self.peers@.take(p + 1).drop_last() =~= self.peers@.take(p as int));
            match self.peers[p] {
                PeerStatus::Busy(_) => {
                    n += 1;
                },
                _ => {},
            }
            p += 1;
        }
        assert(self.peers@.take(self.peers.len() as int) =~= self.peers@);
        n
    }

    fn find_pending(&self) -> (found: Option<usize>)
        ensures
            match found {
                Some(i) => i == first_pending(self@.pieces, 0) && i < self@.pieces.len(),
                None => first_pending(self@.pieces, 0) == self@.pieces.len(),
            },
    {
        let mut i: usize = 0;
        while i < self.pieces.len()
            invariant
                i <= self.pieces.len(),
                first_pending(self@.pieces, 0) == first_pending(self@.pieces, i as int),
            decreases self.pieces.len() - i,
        {
            match self.pieces[i] {
                PieceStatus::Pending => {
                    return Some(i);
                },
                _ => {},
            }
            i += 1;
        }
        None
    }

    fn find_idle(&self) -> (found: Option<usize>)
        ensures
            match found {
                Some(p) => p == first_idle(self@.peers, 0) && p < self@.peers.len(),
                None => first_idle(self@.peers, 0) == self@.peers.len(),
            },
    {
        let mut p: usize = 0;
        while p < self.peers.len()
            invariant
                p <= self.peers.len(),
                first_idle(self@.peers, 0) == first_idle(self@.peers, p as int),
            decreases self.peers.len() - p,
        {
            match self.peers[p] {
                PeerStatus::Idle => {
                    return Some(p);
                },
                _ => {},
            }
            p += 1;
        }
        None
    }

    /// Assigns the next piece: the index of the piece and the index of the
    /// peer that is to download it, or nothing if no piece can be assigned
    /// now.
    pub fn assign(&mut self) -> (assignment: Option<(usize, usize)>)
        requires
            old(self)@.wf(),
        ensures
            (final(self)@, assignment) == old(self)@.assign(),
            final(self)@.wf(),
    {
        proof {
            lemma_assign(self@);
        }
        if self.busy() >= self.max_peers {
            return None;
        }
        let piece = match self.find_pending() {
            Some(i) => i,
            None => {
                return None;
            },
        };
        let peer = match self.find_idle() {
            Some(p) => p,
            None => {
                return None;
            },
        };
        self.pieces.set(piece, PieceStatus::InFlight(peer));
        self.peers.set(peer, PeerStatus::Busy(piece));
        Some((piece, peer))
    }

    fn requeue(&mut self, piece: usize, peer: usize, after: PeerStatus) -> (outcome: Outcome)
        requires
            piece < old(self)@.pieces.len(),
            piece < old(self)@.attempts.len(),
            peer < old(self)@.peers.len(),
        ensures
            (final(self)@, outcome@) == old(self)@.requeue(piece as int, peer as int, after),
    {
        let failed: u32 = if self.attempts[piece] < u32::MAX {
            self.attempts[piece] + 1
        } else {
            self.attempts[piece]
        };
        self.attempts.set(piece, failed);
        self.peers.set(peer, after);
        if failed >= self.max_attempts {
            self.pieces.set(piece, PieceStatus::Abandoned);
            Outcome::Unreachable { piece_id: piece }
        } else {
            self.pieces.set(piece, PieceStatus::Pending);
            Outcome::Retry { piece_id: piece }
        }
    }

    /// The session of `peer` handed out `bytes`, and their SHA-1 digest is
    /// `digest`.
    pub fn digest_arrived(&mut self, peer: usize, digest: &[u8; 20], bytes: Vec<u8>) -> (outcome: Outcome)
        requires
            old(self)@.wf(),
        ensures
            (final(self)@, outcome@) == old(self)@.digest_arrived(peer as int, digest@, bytes@),
            final(self)@.wf(),
    {
        proof {
            lemma_digest_arrived(self@, peer as int, digest@, bytes@);
        }
        if peer >= self.peers.len() {
            return Outcome::Ignored;
        }
        match self.peers[peer] {
            PeerStatus::Busy(piece) => {
                let expected = self.descriptor.checksum(piece);
                if digest_equal(digest, &expected) {
                    self.pieces.set(piece, PieceStatus::Complete);
                    self.peers.set(peer, PeerStatus::Idle);
                    Outcome::Store { piece_id: piece, bytes }
                } else {
                    self.requeue(piece, peer, PeerStatus::Idle)
                }
            },
            _ => Outcome::Ignored,
        }
    }

    /// The session of `peer` handed out `bytes`: they are checked against
    /// the digest that the descriptor gives for the piece.
    pub fn piece_downloaded(&mut self, peer: usize, bytes: Vec<u8>) -> (outcome: Outcome)
        requires
            old(self)@.wf(),
        ensures
            (final(self)@, outcome@) == old(self)@.digest_arrived(peer as int, sha1_hash(bytes@), bytes@),
            final(self)@.wf(),
    {
        let digest = sha1_of(bytes.as_slice());
        self.digest_arrived(peer, &digest, bytes)
    }

    /// The session of `peer` failed.
    pub fn session_failed(&mut self, peer: usize) -> (outcome: Outcome)
        requires
            old(self)@.wf(),
        ensures
            (final(self)@, outcome@) == old(self)@.session_failed(peer as int),
            final(self)@.wf(),
    {
        proof {
            lemma_session_failed(self@, peer as int);
        }
        if peer >= self.peers.len() {
            return Outcome::Ignored;
        }
        match self.peers[peer] {
            PeerStatus::Busy(piece) => self.requeue(piece, peer, PeerStatus::Dropped),
            _ => Outcome::Ignored,
        }
    }

    /// Whether every piece is complete.
    pub fn is_finished(&self) -> (finished: bool)
        ensures
            finished == self@.finished(),
    {
        let mut i: usize = 0;
        while i < self.pieces.len()
            invariant
                i <= self.pieces.len(),
                forall|j: int| 0 <= j < i ==> (#[trigger] self@.pieces[j]) is Complete,
            decreases self.pieces.len() - i,
        {
            match self.pieces[i] {
                PieceStatus::Complete => {},
                _ => {
                    return false;
                },
            }
            i += 1;
        }
        true
    }

    /// How the download stands.
    pub fn status(&self) -> (status: RunStatus)
        ensures
            status == self@.status(),
    {
        if self.is_finished() {
            return RunStatus::Finished;
        }
        let mut i: usize = 0;
        while i < self.pieces.len()
            invariant
                i <= self.pieces.len(),
                forall|j: int| 0 <= j < i ==> !((#[trigger] self@.pieces[j]) is Abandoned),
            decreases self.pieces.len() - i,
        {
            match self.pieces[i] {
                PieceStatus::Abandoned => {
                    return RunStatus::Failed;
                },
                _ => {},
            }
            i += 1;
        }
        if self.busy() == 0 && self.find_idle().is_none() {
            RunStatus::Failed
        } else {
            RunStatus::Running
        }
    }
}

} // verus!
