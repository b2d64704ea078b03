//! The handshake: the fixed record of 68 bytes with which two peers open a
//! connection and agree on the content they speak of.

use vstd::prelude::*;
use crate::client::ClientError;
use crate::hash::{digest_at, digest_equal};

verus! {

/// The length of a handshake record.
pub const HANDSHAKE_LENGTH: usize = 68;

/// The protocol label, `BitTorrent protocol` in ASCII.
pub open spec fn protocol_label() -> Seq<u8> {
    seq![
        0x42u8, 0x69u8, 0x74u8, 0x54u8, 0x6fu8, 0x72u8, 0x72u8, 0x65u8, 0x6eu8, 0x74u8,
        0x20u8, 0x70u8, 0x72u8, 0x6fu8, 0x74u8, 0x6fu8, 0x63u8, 0x6fu8, 0x6cu8,
    ]
}

/// The record for the given content hash and peer id: the label's length,
/// the label, eight reserved zero bytes, the hash, the peer id.
pub open spec fn spec_handshake_bytes(info_hash: Seq<u8>, peer_id: Seq<u8>) -> Seq<u8> {
    seq![19u8] + protocol_label() + Seq::new(8, |i: int| 0u8) + info_hash + peer_id
}

/// A handshake: the content it names and the peer that sent it.
#[derive(Debug, Clone, Copy, PartialEq, Eq)]
pub struct Handshake {
    pub info_hash: [u8; 20],
    pub peer_id: [u8; 20],
}

/// What `Handshake::parse` gives for `bytes` when `expected` is the hash of
/// the content asked for: the hash and the peer id that the record holds,
/// if it is 68 bytes long and names that content.
pub open spec fn spec_parse_handshake(bytes: Seq<u8>, expected: Seq<u8>) -> Option<(Seq<u8>, Seq<u8>)> {
    if bytes.len() == HANDSHAKE_LENGTH && bytes.subrange(28, 48) == expected {
        Some((bytes.subrange(28, 48), bytes.subrange(48, 68)))
    } else {
        None
    }
}

/// A handshake that was built for some content is accepted by a peer that
/// asks for that content, and gives back what it was built from.
pub proof fn lemma_handshake_roundtrip(info_hash: Seq<u8>, peer_id: Seq<u8>)
    requires
        info_hash.len() == 20,
        peer_id.len() == 20,
    ensures
        spec_handshake_bytes(info_hash, peer_id).len() == HANDSHAKE_LENGTH,
        spec_parse_handshake(spec_handshake_bytes(info_hash, peer_id), info_hash) == Some((info_hash, peer_id)),
{
    let bytes = spec_handshake_bytes(info_hash, peer_id);
    assert(bytes.subrange(28, 48) =~= info_hash);
    assert(bytes.subrange(48, 68) =~= peer_id);
}

impl Handshake {
    /// The handshake of the peer `peer_id` for the content `info_hash`.
    pub fn new(info_hash: [u8; 20], peer_id: [u8; 20]) -> (h: Handshake)
        ensures
            h.info_hash == info_hash,
            h.peer_id == peer_id,
    {
        Handshake { info_hash, peer_id }
    }

    /// The record to send.
    pub fn to_bytes(&self) -> (bytes: Vec<u8>)
        ensures
            bytes@ == spec_handshake_bytes(self.info_hash@, self.peer_id@),
            bytes@.len() == HANDSHAKE_LENGTH,
    {
        let mut out: Vec<u8> = Vec::with_capacity(HANDSHAKE_LENGTH);
        out.push(19u8);
        out.push(0x42u8);
        out.push(0x69u8);
        out.push(0x74u8);
        out.push(0x54u8);
        out.push(0x6fu8);
        out.push(0x72u8);
        out.push(0x72u8);
        out.push(0x65u8);
        out.push(0x6eu8);
        out.push(0x74u8);
        out.push(0x20u8);
        out.push(0x70u8);
        out.push(0x72u8);
        out.push(0x6fu8);
        out.push(0x74u8);
        out.push(0x6fu8);
        out.push(0x63u8);
        out.push(0x6fu8);
        out.push(0x6cu8);
        let mut i: usize = 0;
        while i < 8
            invariant
                i <= 8,
                out@ == seq![19u8] + protocol_label() + Seq::new(i as nat, |k: int| 0u8),
            decreases 8 - i,
        {
            out.push(0u8);
            i += 1;
            assert(out@ =~= seq![19u8] + protocol_label() + Seq::new(i as nat, |k: int| 0u8));
        }
        let mut j: usize = 0;
        while j < 20
            invariant
                j <= 20,
                out@ == seq![19u8] + protocol_label() + Seq::new(8, |k: int| 0u8) + self.info_hash@.subrange(
                    0,
                    j as int,
                ),
            decreases 20 - j,
        {
            out.push(self.info_hash[j]);
            j += 1;
            assert(out@ =~= seq![19u8] + protocol_label() + Seq::new(8, |k: int| 0u8)
                + self.info_hash@.subrange(0, j as int));
        }
        assert(self.info_hash@.subrange(0, 20) =~= self.info_hash@);
        let mut k: usize = 0;
        while k < 20
            invariant
                k <= 20,
                out@ == seq![19u8] + protocol_label() + Seq::new(8, |k: int| 0u8) + self.info_hash@
                    + self.peer_id@.subrange(0, k as int),
            decreases 20 - k,
        {
            out.push(self.peer_id[k]);
            k += 1;
            assert(out@ =~= seq![19u8] + protocol_label() + Seq::new(8, |k: int| 0u8) + self.info_hash@
                + self.peer_id@.subrange(0, k as int));
        }
        assert(self.peer_id@.subrange(0, 20) =~= self.peer_id@);
        out
    }

    /// Reads the record that a peer sent back. It is accepted if and only if
    /// it is exactly 68 bytes long and carries the hash `expected`.
    pub fn parse(bytes: &[u8], expected: &[u8; 20]) -> (r: Result<Handshake, ClientError>)
        ensures
            match r {
                Ok(h) => spec_parse_handshake(bytes@, expected@) == Some((h.info_hash@, h.peer_id@)),
                Err(e) => spec_parse_handshake(bytes@, expected@) is None && e is Handshake,
            },
    {
        if bytes.len() != HANDSHAKE_LENGTH {
            return Err(ClientError::Handshake);
        }
        let info_hash = digest_at(bytes, 28);
        if !digest_equal(&info_hash, expected) {
            return Err(ClientError::Handshake);
        }
        let peer_id = digest_at(bytes, 48);
        Ok(Handshake { info_hash, peer_id })
    }
}

} // verus!
