//! The torrent descriptor: what a metadata file says of the content and of
//! the tracker, taken out of a decoded dictionary.

use vstd::prelude::*;
use vstd::string::*;
use vstd::arithmetic::div_mod::{
    lemma_div_pos_is_pos, lemma_fundamental_div_mod, lemma_fundamental_div_mod_converse, lemma_mod_pos_bound,
};
use vstd::utf8::{decode_utf8, encode_utf8, valid_utf8};
use crate::bencode::codec::{encode, spec_encode};
use crate::bencode::{dict_lookup, Bencode, BencodeValue};
use crate::hash::{digest_at, sha1_hash, sha1_of};
use crate::text::text_of;

verus! {

/// Why a decoded value is not a descriptor, or not a tracker's answer.
#[derive(Debug, PartialEq, Eq)]
pub enum MetadataError {
    /// The key with this name is absent.
    MissingField(String),
    /// The key with this name holds something else than it should.
    WrongType(String),
    /// The list of peers is not made of whole peers.
    InvalidPeerList,
}

/// The mathematical value of a `MetadataError`.
pub ghost enum MetadataFault {
    MissingField(Seq<char>),
    WrongType(Seq<char>),
    InvalidPeerList,
}

impl View for MetadataError {
    type V = MetadataFault;

    open spec fn view(&self) -> MetadataFault {
        match self {
            MetadataError::MissingField(name) => MetadataFault::MissingField(name@),
            MetadataError::WrongType(name) => MetadataFault::WrongType(name@),
            MetadataError::InvalidPeerList => MetadataFault::InvalidPeerList,
        }
    }
}

/// The text that tells a user why a value is not a descriptor or not a
/// tracker's answer: what is wrong, and with which key.
pub open spec fn spec_fault_text(fault: MetadataFault) -> Seq<char> {
    match fault {
        MetadataFault::MissingField(name) => "missing field: "@ + name,
        MetadataFault::WrongType(name) => "wrong type of field: "@ + name,
        MetadataFault::InvalidPeerList => "invalid peer list"@,
    }
}

impl MetadataError {
    /// The text that tells a user of the error.
    pub fn message(&self) -> (text: String)
        ensures
            text@ == spec_fault_text(self@),
    {
        match self {
            MetadataError::MissingField(name) => String::from_str("missing field: ").concat(name.as_str()),
            MetadataError::WrongType(name) => String::from_str("wrong type of field: ").concat(name.as_str()),
            MetadataError::InvalidPeerList => String::from_str("invalid peer list"),
        }
    }
}

/// What `v` holds under the key with the name `key`; nothing if `v` is not
/// a dictionary.
pub open spec fn spec_field(v: Bencode, key: Seq<char>) -> Option<Bencode> {
    match v {
        Bencode::Dict(entries) => dict_lookup(entries, encode_utf8(key)),
        _ => None,
    }
}

/// What `value` holds under the key with the name `key`.
pub fn field<'a>(value: &'a BencodeValue, key: &str) -> (found: Option<&'a BencodeValue>)
    ensures
        match found {
            Some(inner) => spec_field(value@, key@) == Some(inner@),
            None => spec_field(value@, key@) is None,
        },
{
    match value {
        BencodeValue::Dictionary(entries) => entries.get(key.as_bytes()),
        _ => None,
    }
}

/// How many pieces of `piece_length` bytes it takes to hold `total_length`
/// bytes, the last of which may be shorter.
pub open spec fn piece_count(total_length: int, piece_length: int) -> int {
    (total_length + piece_length - 1) / piece_length
}

/// The number of pieces is the length of the content divided by the piece
/// length and rounded up: it is the least number of pieces that hold the
/// content.
pub proof fn lemma_piece_count_is_ceiling(total_length: int, piece_length: int)
    requires
        0 < piece_length,
        0 <= total_length,
    ensures
        piece_count(total_length, piece_length) * piece_length >= total_length,
        (piece_count(total_length, piece_length) - 1) * piece_length < total_length,
        piece_count(total_length, piece_length) >= 0,
        total_length % piece_length == 0 ==> piece_count(total_length, piece_length) == total_length / piece_length,
        total_length % piece_length != 0 ==> piece_count(total_length, piece_length) == total_length / piece_length + 1,
{
    let whole = total_length / piece_length;
    let rest = total_length % piece_length;
    lemma_fundamental_div_mod(total_length, piece_length);
    lemma_mod_pos_bound(total_length, piece_length);
    lemma_div_pos_is_pos(total_length, piece_length);
    assert(piece_length * whole == whole * piece_length) by (nonlinear_arith);
    assert((whole + 1) * piece_length == whole * piece_length + piece_length) by (nonlinear_arith);
    assert((whole - 1) * piece_length == whole * piece_length - piece_length) by (nonlinear_arith);
    let sum = total_length + piece_length - 1;
    if rest == 0 {
        lemma_fundamental_div_mod_converse(sum, piece_length, whole, piece_length - 1);
    } else {
        lemma_fundamental_div_mod_converse(sum, piece_length, whole + 1, rest - 1);
    }
}

/// Every piece starts inside the content: piece `index` begins before the
/// content ends, so it holds at least one byte.
pub proof fn lemma_piece_starts_inside(total_length: int, piece_length: int, index: int)
    requires
        0 < piece_length,
        0 <= total_length,
        0 <= index < piece_count(total_length, piece_length),
    ensures
        0 <= index * piece_length < total_length,
{
    let count = piece_count(total_length, piece_length);
    lemma_piece_count_is_ceiling(total_length, piece_length);
    assert(index * piece_length <= (count - 1) * piece_length) by (nonlinear_arith)
        requires
            index <= count - 1,
            0 < piece_length,
    ;
    assert(0 <= index * piece_length) by (nonlinear_arith)
        requires
            0 <= index,
            0 < piece_length,
    ;
}

/// The digests that `pieces` is made of, twenty bytes each.
pub open spec fn spec_checksums(pieces: Seq<u8>) -> Seq<Seq<u8>> {
    Seq::new((pieces.len() / 20) as nat, |i: int| pieces.subrange(20 * i, 20 * i + 20))
}

/// The mathematical value of a `TorrentFile`.
pub ghost struct TorrentModel {
    pub announce: Seq<char>,
    pub name: Option<Seq<char>>,
    pub piece_length: int,
    pub total_length: int,
    pub pieces: Seq<Seq<u8>>,
    pub info_hash: Seq<u8>,
}

impl TorrentModel {
    /// Pieces have a positive length, and there are as many digests as it
    /// takes pieces to hold the content.
    pub open spec fn wf(self) -> bool {
        &&& 0 < self.piece_length <= u32::MAX
        &&& 0 <= self.total_length <= u64::MAX
        &&& self.pieces.len() == piece_count(self.total_length, self.piece_length)
        &&& forall|i: int| 0 <= i < self.pieces.len() ==> (#[trigger] self.pieces[i]).len() == 20
        &&& self.info_hash.len() == 20
    }

    /// How many bytes piece `index` holds: the piece length, but for the last
    /// piece, which holds what is left.
    pub open spec fn piece_size(self, index: int) -> int {
        let rest = self.total_length - index * self.piece_length;
        if rest < self.piece_length {
            rest
        } else {
            self.piece_length
        }
    }
}

/// A descriptor has one digest for every piece: as many as the length of the
/// content divided by the piece length, rounded up. Every piece but the last
/// is full, the last holds at least one byte, and together the pieces are
/// as long as the content.
pub proof fn lemma_descriptor_piece_count(t: TorrentModel)
    requires
        t.wf(),
    ensures
        t.pieces.len() == piece_count(t.total_length, t.piece_length),
        t.pieces.len() * t.piece_length >= t.total_length,
        (t.pieces.len() - 1) * t.piece_length < t.total_length,
        t.total_length == 0 <==> t.pieces.len() == 0,
        forall|i: int| 0 <= i < t.pieces.len() - 1 ==> #[trigger] t.piece_size(i) == t.piece_length,
        t.pieces.len() > 0 ==> 0 < t.piece_size(t.pieces.len() - 1) <= t.piece_length && (t.pieces.len() - 1)
            * t.piece_length + t.piece_size(t.pieces.len() - 1) == t.total_length,
{
    let count = t.pieces.len() as int;
    lemma_piece_count_is_ceiling(t.total_length, t.piece_length);
    assert forall|i: int| 0 <= i < count - 1 implies #[trigger] t.piece_size(i) == t.piece_length by {
        assert((i + 1) * t.piece_length <= (count - 1) * t.piece_length) by (nonlinear_arith)
            requires
                i + 1 <= count - 1,
                0 < t.piece_length,
        ;
        assert((i + 1) * t.piece_length == i * t.piece_length + t.piece_length) by (nonlinear_arith);
    }
    if count > 0 {
        lemma_piece_starts_inside(t.total_length, t.piece_length, count - 1);
        assert(count * t.piece_length == (count - 1) * t.piece_length + t.piece_length) by (nonlinear_arith);
    } else {
        assert(count * t.piece_length == 0) by (nonlinear_arith)
            requires
                count == 0,
        ;
    }
}

/// The descriptor that names the tracker `announce` and no content: no
/// bytes, no pieces, no name, a piece length of one byte and a content hash
/// of zeros.
pub open spec fn spec_bare(announce: Seq<char>) -> TorrentModel {
    TorrentModel {
        announce,
        name: None,
        piece_length: 1,
        total_length: 0,
        pieces: Seq::empty(),
        info_hash: Seq::new(20, |i: int| 0u8),
    }
}

/// The descriptor that the dictionary `info` gives together with the
/// tracker's address. The keys are looked at in this order, and the first
/// that is absent or holds something else than it should decides the error:
/// `piece length`, a positive integer of at most 32 bits; `pieces`, a byte
/// string of whole digests; `length`, an integer that is not negative;
/// `name`, if it is there, a byte string in UTF-8. Then `pieces` has to hold
/// as many digests as the content has pieces.
pub open spec fn spec_from_info(announce: Seq<char>, info: Bencode) -> Result<TorrentModel, MetadataFault> {
    let piece_length = spec_field(info, "piece length"@);
    let pieces = spec_field(info, "pieces"@);
    let length = spec_field(info, "length"@);
    let name = spec_field(info, "name"@);
    if piece_length is None {
        Err(MetadataFault::MissingField("piece length"@))
    } else if !(piece_length->0 is Integer && 0 < piece_length->0->Integer_0 <= u32::MAX) {
        Err(MetadataFault::WrongType("piece length"@))
    } else if pieces is None {
        Err(MetadataFault::MissingField("pieces"@))
    } else if !(pieces->0 is Bytes && pieces->0->Bytes_0.len() % 20 == 0) {
        Err(MetadataFault::WrongType("pieces"@))
    } else if length is None {
        Err(MetadataFault::MissingField("length"@))
    } else if !(length->0 is Integer && 0 <= length->0->Integer_0 <= u64::MAX) {
        Err(MetadataFault::WrongType("length"@))
    } else if name is Some && !(name->0 is Bytes && valid_utf8(name->0->Bytes_0)) {
        Err(MetadataFault::WrongType("name"@))
    } else if pieces->0->Bytes_0.len() / 20 != piece_count(length->0->Integer_0, piece_length->0->Integer_0) {
        Err(MetadataFault::WrongType("pieces"@))
    } else {
        Ok(
            TorrentModel {
                announce,
                name: if name is Some {
                    Some(decode_utf8(name->0->Bytes_0))
                } else {
                    None
                },
                piece_length: piece_length->0->Integer_0,
                total_length: length->0->Integer_0,
                pieces: spec_checksums(pieces->0->Bytes_0),
                info_hash: sha1_hash(spec_encode(info)),
            },
        )
    }
}

/// The descriptor that `v` gives: `announce` has to be a byte string in
/// UTF-8 and `info` a dictionary, which `spec_from_info` reads; the content
/// hash is the SHA-1 digest of the canonical encoding of `info`. A value
/// that is no dictionary has no keys.
pub open spec fn spec_from_value(v: Bencode) -> Result<TorrentModel, MetadataFault> {
    let announce = spec_field(v, "announce"@);
    let info = spec_field(v, "info"@);
    if announce is None {
        Err(MetadataFault::MissingField("announce"@))
    } else if !(announce->0 is Bytes && valid_utf8(announce->0->Bytes_0)) {
        Err(MetadataFault::WrongType("announce"@))
    } else if info is None {
        Err(MetadataFault::MissingField("info"@))
    } else if !(info->0 is Dict) {
        Err(MetadataFault::WrongType("info"@))
    } else {
        spec_from_info(decode_utf8(announce->0->Bytes_0), info->0)
    }
}

/// What `find_key_in_bencode` gives for the key with the name `key`: the
/// text under it, or why there is none.
pub open spec fn spec_find_key(v: Bencode, key: Seq<char>) -> Result<Seq<char>, Seq<char>> {
    match v {
        Bencode::Dict(entries) => match dict_lookup(entries, encode_utf8(key)) {
            None => Err("Key not found"@),
            Some(Bencode::Bytes(b)) => if valid_utf8(b) {
                Ok(decode_utf8(b))
            } else {
                Err("Invalid UTF-8 bytes"@)
            },
            Some(_) => Err("Not a string in the key"@),
        },
        _ => Err("Not a dictionary provided"@),
    }
}

/// A torrent descriptor.
#[derive(Debug, Clone)]
pub struct TorrentFile {
    announce: String,
    name: Option<String>,
    piece_length: u32,
    total_length: u64,
    pieces: Vec<[u8; 20]>,
    info_hash: [u8; 20],
}

impl View for TorrentFile {
    type V = TorrentModel;

    closed spec fn view(&self) -> TorrentModel {
        TorrentModel {
            announce: self.announce@,
            name: match self.name {
                Some(name) => Some(name@),
                None => None,
            },
            piece_length: self.piece_length as int,
            total_length: self.total_length as int,
            pieces: Seq::new(self.pieces@.len(), |i: int| self.pieces@[i]@),
            info_hash: self.info_hash@,
        }
    }
}

/// Splits `pieces` into digests of twenty bytes.
fn split_checksums(pieces: &[u8]) -> (out: Vec<[u8; 20]>)
    requires
        pieces@.len() % 20 == 0,
    ensures
        out@.len() == pieces@.len() / 20,
        forall|i: int| 0 <= i < out@.len() ==> (#[trigger] out@[i])@ == pieces@.subrange(20 * i, 20 * i + 20),
{
    let count: usize = pieces.len() / 20;
    let mut out: Vec<[u8; 20]> = Vec::with_capacity(count);
    let mut i: usize = 0;
    while i < count
        invariant
            i <= count,
            count == pieces@.len() / 20,
            pieces@.len() % 20 == 0,
            pieces@.len() <= usize::MAX,
            out@.len() == i,
            forall|j: int| 0 <= j < i ==> (#[trigger] out@[j])@ == pieces@.subrange(20 * j, 20 * j + 20),
        decreases count - i,
    {
        assert(20 * i + 20 <= pieces@.len());
        out.push(digest_at(pieces, 20 * i));
        i += 1;
    }
    out
}

impl TorrentFile {
    /// The invariant of a descriptor: see `TorrentModel::wf`.
    pub open spec fn wf(&self) -> bool {
        self@.wf()
    }

    /// A descriptor that names its tracker and no content.
    pub fn new(announce: String) -> (t: TorrentFile)
        ensures
            t@ == spec_bare(announce@),
            t.wf(),
    {
        let t = TorrentFile {
            announce,
            name: None,
            piece_length: 1,
            total_length: 0,
            pieces: Vec::new(),
            info_hash: [0u8; 20],
        };
        assert(t@.pieces =~= Seq::<Seq<u8>>::empty());
        assert(t@.info_hash =~= Seq::new(20, |i: int| 0u8));
        t
    }

    /// The text that `input_bencode`, a dictionary, holds under `key`.
    pub fn find_key_in_bencode(input_bencode: BencodeValue, key: String) -> (r: Result<String, String>)
        ensures
            match r {
                Ok(text) => spec_find_key(input_bencode@, key@) == Ok::<Seq<char>, Seq<char>>(text@),
                Err(why) => spec_find_key(input_bencode@, key@) == Err::<Seq<char>, Seq<char>>(why@),
            },
    {
        match input_bencode {
            BencodeValue::Dictionary(input) => {
                match input.get(key.as_str().as_bytes()) {
                    None => Err(String::from_str("Key not found")),
                    Some(value) => match value {
                        BencodeValue::String(bytes) => match text_of(bytes.as_slice()) {
                            Some(text) => Ok(text),
                            None => Err(String::from_str("Invalid UTF-8 bytes")),
                        },
                        _ => Err(String::from_str("Not a string in the key")),
                    },
                }
            },
            _ => Err(String::from_str("Not a dictionary provided")),
        }
    }

    /// The descriptor that a decoded metadata file gives, as `from_value`
    /// builds it; where there is none, the text of the reason.
    pub fn new_from_bencode(bencode: BencodeValue) -> (r: Result<TorrentFile, String>)
        ensures
            match r {
                Ok(t) => spec_from_value(bencode@) == Ok::<TorrentModel, MetadataFault>(t@) && t.wf(),
                Err(why) => spec_from_value(bencode@) is Err && why@ == spec_fault_text(
                    spec_from_value(bencode@)->Err_0,
                ),
            },
    {
        match Self::from_value(&bencode) {
            Ok(t) => Ok(t),
            Err(e) => Err(e.message()),
        }
    }

    /// The descriptor that a decoded metadata file gives.
    pub fn from_value(value: &BencodeValue) -> (r: Result<TorrentFile, MetadataError>)
        ensures
            match r {
                Ok(t) => spec_from_value(value@) == Ok::<TorrentModel, MetadataFault>(t@) && t.wf(),
                Err(e) => spec_from_value(value@) == Err::<TorrentModel, MetadataFault>(e@),
            },
    {
        let announce = match field(value, "announce") {
            None => {
                return Err(MetadataError::MissingField(String::from_str("announce")));
            },
            Some(BencodeValue::String(bytes)) => match text_of(bytes.as_slice()) {
                Some(text) => text,
                None => {
                    return Err(MetadataError::WrongType(String::from_str("announce")));
                },
            },
            Some(_) => {
                return Err(MetadataError::WrongType(String::from_str("announce")));
            },
        };
        let info = match field(value, "info") {
            None => {
                return Err(MetadataError::MissingField(String::from_str("info")));
            },
            Some(inner) => inner,
        };
        match info {
            BencodeValue::Dictionary(_) => {},
            _ => {
                return Err(MetadataError::WrongType(String::from_str("info")));
            },
        }
        let piece_length: u32 = match field(info, "piece length") {
            None => {
                return Err(MetadataError::MissingField(String::from_str("piece length")));
            },
            Some(BencodeValue::Integer(i)) => {
                if *i <= 0 || *i > 0xffff_ffff {
                    return Err(MetadataError::WrongType(String::from_str("piece length")));
                }
                *i as u32
            },
            Some(_) => {
                return Err(MetadataError::WrongType(String::from_str("piece length")));
            },
        };
        let pieces: &Vec<u8> = match field(info, "pieces") {
            None => {
                return Err(MetadataError::MissingField(String::from_str("pieces")));
            },
            Some(BencodeValue::String(bytes)) => {
                if bytes.len() % 20 != 0 {
                    return Err(MetadataError::WrongType(String::from_str("pieces")));
                }
                bytes
            },
            Some(_) => {
                return Err(MetadataError::WrongType(String::from_str("pieces")));
            },
        };
        let total_length: u64 = match field(info, "length") {
            None => {
                return Err(MetadataError::MissingField(String::from_str("length")));
            },
            Some(BencodeValue::Integer(i)) => {
                if *i < 0 {
                    return Err(MetadataError::WrongType(String::from_str("length")));
                }
                *i as u64
            },
            Some(_) => {
                return Err(MetadataError::WrongType(String::from_str("length")));
            },
        };
        let name: Option<String> = match field(info, "name") {
            None => None,
            Some(BencodeValue::String(bytes)) => match text_of(bytes.as_slice()) {
                Some(text) => Some(text),
                None => {
                    return Err(MetadataError::WrongType(String::from_str("name")));
                },
            },
            Some(_) => {
                return Err(MetadataError::WrongType(String::from_str("name")));
            },
        };
        let wanted: u128 = (total_length as u128 + piece_length as u128 - 1) / (piece_length as u128);
        if (pieces.len() / 20) as u128 != wanted {
            return Err(MetadataError::WrongType(String::from_str("pieces")));
        }
        let checksums = split_checksums(pieces.as_slice());
        let encoded = encode(info);
        let info_hash = sha1_of(encoded.as_slice());
        let t = TorrentFile { announce, name, piece_length, total_length, pieces: checksums, info_hash };
        assert(t@.pieces =~= spec_checksums(pieces@));
        Ok(t)
    }

    /// The address of the tracker.
    pub fn announce(&self) -> (announce: &String)
        ensures
            announce@ == self@.announce,
    {
        &self.announce
    }

    /// The name that the metadata suggests for the content, if it gives one.
    pub fn name(&self) -> (name: &Option<String>)
        ensures
            match name {
                Some(text) => self@.name == Some(text@),
                None => self@.name is None,
            },
    {
        &self.name
    }

    /// The number of bytes in each piece but the last.
    pub fn piece_length(&self) -> (n: u32)
        ensures
            n == self@.piece_length,
    {
        self.piece_length
    }

    /// The number of bytes of the content.
    pub fn total_length(&self) -> (n: u64)
        ensures
            n == self@.total_length,
    {
        self.total_length
    }

    /// The number of pieces.
    pub fn piece_total(&self) -> (n: usize)
        ensures
            n == self@.pieces.len(),
    {
        self.pieces.len()
    }

    /// The digest that piece `index` has to have.
    pub fn checksum(&self, index: usize) -> (digest: [u8; 20])
        requires
            index < self@.pieces.len(),
        ensures
            digest@ == self@.pieces[index as int],
    {
        self.pieces[index]
    }

    /// The hash that identifies the content to peers and trackers.
    pub fn info_hash(&self) -> (hash: [u8; 20])
        ensures
            hash@ == self@.info_hash,
    {
        self.info_hash
    }

    /// How many bytes piece `index` holds.
    pub fn piece_size(&self, index: usize) -> (n: u32)
        requires
            self.wf(),
            index < self@.pieces.len(),
        ensures
            n == self@.piece_size(index as int),
            0 < n <= self@.piece_length,
    {
        proof {
            lemma_piece_starts_inside(self@.total_length, self@.piece_length, index as int);
        }
        let start: u128 = (index as u128) * (self.piece_length as u128);
        let rest: u128 = self.total_length as u128 - start;
        if rest < self.piece_length as u128 {
            rest as u32
        } else {
            self.piece_length
        }
    }
}

} // verus!
