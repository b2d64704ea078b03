//! The frames of the peer wire protocol: a four-byte big-endian length,
//! then a message id and what belongs to it.

use vstd::prelude::*;
use vstd::string::*;
use crate::byte_string::{copy_from, push_all};
use crate::client::{ClientError, ClientFault};

verus! {

pub const ID_CHOKE: u8 = 0;
pub const ID_UNCHOKE: u8 = 1;
pub const ID_INTERESTED: u8 = 2;
pub const ID_NOT_INTERESTED: u8 = 3;
pub const ID_BITFIELD: u8 = 5;
pub const ID_REQUEST: u8 = 6;
pub const ID_PIECE: u8 = 7;
pub const ID_CANCEL: u8 = 8;

/// The four bytes of `x`, most significant first.
pub open spec fn spec_u32_be(x: u32) -> Seq<u8> {
    seq![
        (x / 0x100_0000) as u8,
        ((x / 0x1_0000) % 0x100) as u8,
        ((x / 0x100) % 0x100) as u8,
        (x % 0x100) as u8,
    ]
}

/// The number whose big-endian bytes are the four bytes of `b` from `at` on.
pub open spec fn spec_u32_from_be(b: Seq<u8>, at: int) -> u32 {
    (b[at] * 0x100_0000 + b[at + 1] * 0x1_0000 + b[at + 2] * 0x100 + b[at + 3]) as u32
}

/// Reading back the big-endian bytes of a number gives the number.
pub proof fn lemma_u32_be_roundtrip(x: u32)
    ensures
        spec_u32_be(x).len() == 4,
        spec_u32_from_be(spec_u32_be(x), 0) == x,
{
    let b0 = (x / 0x100_0000) as u8;
    let b1 = ((x / 0x1_0000) % 0x100) as u8;
    let b2 = ((x / 0x100) % 0x100) as u8;
    let b3 = (x % 0x100) as u8;
    assert(b0 == x / 0x100_0000 && b1 == (x / 0x1_0000) % 0x100 && b2 == (x / 0x100) % 0x100 && b3 == x % 0x100);
    assert((x / 0x100_0000) * 0x100_0000 + ((x / 0x1_0000) % 0x100) * 0x1_0000 + ((x / 0x100) % 0x100) * 0x100 + x
        % 0x100 == x) by (bit_vector);
}

/// The four bytes of a number that is put together from four bytes are
/// those bytes.
proof fn lemma_be_parts(b0: u8, b1: u8, b2: u8, b3: u8)
    by (bit_vector)
    ensures
        (b0 * 0x100_0000 + b1 * 0x1_0000 + b2 * 0x100 + b3) / 0x100_0000 == b0,
        ((b0 * 0x100_0000 + b1 * 0x1_0000 + b2 * 0x100 + b3) / 0x1_0000) % 0x100 == b1,
        ((b0 * 0x100_0000 + b1 * 0x1_0000 + b2 * 0x100 + b3) / 0x100) % 0x100 == b2,
        (b0 * 0x100_0000 + b1 * 0x1_0000 + b2 * 0x100 + b3) % 0x100 == b3,
        b0 * 0x100_0000 + b1 * 0x1_0000 + b2 * 0x100 + b3 <= 0xffff_ffff,
{
}

/// Writing the number read from four bytes gives those bytes.
pub proof fn lemma_u32_from_be_roundtrip(b: Seq<u8>, at: int)
    requires
        0 <= at,
        at + 4 <= b.len(),
    ensures
        spec_u32_be(spec_u32_from_be(b, at)) == b.subrange(at, at + 4),
{
    lemma_be_parts(b[at], b[at + 1], b[at + 2], b[at + 3]);
    let x = spec_u32_from_be(b, at);
    assert(x == b[at] * 0x100_0000 + b[at + 1] * 0x1_0000 + b[at + 2] * 0x100 + b[at + 3]);
    assert(spec_u32_be(x) =~= b.subrange(at, at + 4));
}

/// Appends the big-endian bytes of `x` to `out`.
pub fn push_u32_be(out: &mut Vec<u8>, x: u32)
    ensures
        final(out)@ == old(out)@ + spec_u32_be(x),
{
    out.push((x / 0x100_0000) as u8);
    out.push(((x / 0x1_0000) % 0x100) as u8);
    out.push(((x / 0x100) % 0x100) as u8);
    out.push((x % 0x100) as u8);
    assert(out@ =~= old(out)@ + spec_u32_be(x));
}

/// The big-endian number in the four bytes of `bytes` from `at` on.
pub fn read_u32_be(bytes: &[u8], at: usize) -> (x: u32)
    requires
        at + 4 <= bytes.len(),
    ensures
        x == spec_u32_from_be(bytes@, at as int),
{
    let b0: u32 = bytes[at] as u32;
    let b1: u32 = bytes[at + 1] as u32;
    let b2: u32 = bytes[at + 2] as u32;
    let b3: u32 = bytes[at + 3] as u32;
    b0 * 0x100_0000 + b1 * 0x1_0000 + b2 * 0x100 + b3
}

/// The length that a frame's four-byte prefix announces. A prefix that is
/// not four bytes long announces nothing: the frame is taken as empty.
pub fn frame_length(prefix: &[u8]) -> (n: u32)
    ensures
        n == (if prefix@.len() == 4 { spec_u32_from_be(prefix@, 0) } else { 0u32 }),
{
    if prefix.len() == 4 {
        read_u32_be(prefix, 0)
    } else {
        0
    }
}

/// The longest payload that is read from a peer: a block with its header
/// fits in it many times over. A prefix that announces more is refused
/// before anything is set aside for the payload.
pub const MAX_FRAME_LENGTH: u32 = 1048576;

/// The number of payload bytes to read behind the prefix `prefix`, if the
/// length that it announces is not over `MAX_FRAME_LENGTH`. A prefix that is
/// not four bytes long announces an empty frame.
pub open spec fn spec_accepted_frame_length(prefix: Seq<u8>) -> Option<u32> {
    let announced = if prefix.len() == 4 {
        spec_u32_from_be(prefix, 0)
    } else {
        0u32
    };
    if announced <= MAX_FRAME_LENGTH {
        Some(announced)
    } else {
        None
    }
}

/// The number of payload bytes to read behind a frame's prefix. A frame
/// that is longer than `MAX_FRAME_LENGTH` is not read: that is reported as a
/// failure of the transport.
pub fn accepted_frame_length(prefix: &[u8]) -> (r: Result<usize, ClientError>)
    ensures
        match r {
            Ok(n) => spec_accepted_frame_length(prefix@) == Some(n as u32) && n <= MAX_FRAME_LENGTH,
            Err(e) => spec_accepted_frame_length(prefix@) is None && e@ == ClientFault::Io("frame too long"@),
        },
{
    let announced = frame_length(prefix);
    if announced <= MAX_FRAME_LENGTH {
        Ok(announced as usize)
    } else {
        Err(ClientError::Io(String::from_str("frame too long")))
    }
}

/// A message of the peer wire protocol.
#[derive(Debug, Clone, PartialEq, Eq)]
pub enum TorrentMessage {
    KeepAlive,
    Choke,
    Unchoke,
    Interested,
    NotInterested,
    Bitfield { bitfield: Vec<u8> },
    Request { index: u32, begin: u32, length: u32 },
    Piece { index: u32, begin: u32, block: Vec<u8> },
    Cancel { index: u32, begin: u32, length: u32 },
    /// A message whose id is not known, or whose content does not have the
    /// shape that its id asks for. It is carried along and otherwise ignored.
    Unknown { id: u8, payload: Vec<u8> },
}

/// The mathematical value of a `TorrentMessage`.
pub ghost enum Message {
    KeepAlive,
    Choke,
    Unchoke,
    Interested,
    NotInterested,
    Bitfield { bitfield: Seq<u8> },
    Request { index: u32, begin: u32, length: u32 },
    Piece { index: u32, begin: u32, block: Seq<u8> },
    Cancel { index: u32, begin: u32, length: u32 },
    Unknown { id: u8, payload: Seq<u8> },
}

impl View for TorrentMessage {
    type V = Message;

    open spec fn view(&self) -> Message {
        match self {
            TorrentMessage::KeepAlive => Message::KeepAlive,
            TorrentMessage::Choke => Message::Choke,
            TorrentMessage::Unchoke => Message::Unchoke,
            TorrentMessage::Interested => Message::Interested,
            TorrentMessage::NotInterested => Message::NotInterested,
            TorrentMessage::Bitfield { bitfield } => Message::Bitfield { bitfield: bitfield@ },
            TorrentMessage::Request { index, begin, length } => Message::Request {
                index: *index,
                begin: *begin,
                length: *length,
            },
            TorrentMessage::Piece { index, begin, block } => Message::Piece {
                index: *index,
                begin: *begin,
                block: block@,
            },
            TorrentMessage::Cancel { index, begin, length } => Message::Cancel {
                index: *index,
                begin: *begin,
                length: *length,
            },
            TorrentMessage::Unknown { id, payload } => Message::Unknown { id: *id, payload: payload@ },
        }
    }
}

/// What follows the length prefix in the frame of `m`: nothing for a
/// keep-alive, else the message id and the content.
pub open spec fn spec_payload(m: Message) -> Seq<u8> {
    match m {
        Message::KeepAlive => Seq::empty(),
        Message::Choke => seq![ID_CHOKE],
        Message::Unchoke => seq![ID_UNCHOKE],
        Message::Interested => seq![ID_INTERESTED],
        Message::NotInterested => seq![ID_NOT_INTERESTED],
        Message::Bitfield { bitfield } => seq![ID_BITFIELD] + bitfield,
        Message::Request { index, begin, length } => seq![ID_REQUEST] + spec_u32_be(index) + spec_u32_be(begin)
            + spec_u32_be(length),
        Message::Piece { index, begin, block } => seq![ID_PIECE] + spec_u32_be(index) + spec_u32_be(begin) + block,
        Message::Cancel { index, begin, length } => seq![ID_CANCEL] + spec_u32_be(index) + spec_u32_be(begin)
            + spec_u32_be(length),
        Message::Unknown { id, payload } => seq![id] + payload,
    }
}

/// The whole frame of `m`: the length of the payload in four big-endian
/// bytes, then the payload.
pub open spec fn spec_frame(m: Message) -> Seq<u8> {
    spec_u32_be(spec_payload(m).len() as u32) + spec_payload(m)
}

/// The message that a frame's payload holds. No payload is a keep-alive. A
/// payload whose id is known and whose content has the length that the id
/// asks for is that message; every other payload is `Unknown`.
pub open spec fn spec_read(payload: Seq<u8>) -> Message {
    if payload.len() == 0 {
        Message::KeepAlive
    } else {
        let id = payload[0];
        let n = payload.len() - 1;
        if id == ID_CHOKE && n == 0 {
            Message::Choke
        } else if id == ID_UNCHOKE && n == 0 {
            Message::Unchoke
        } else if id == ID_INTERESTED && n == 0 {
            Message::Interested
        } else if id == ID_NOT_INTERESTED && n == 0 {
            Message::NotInterested
        } else if id == ID_BITFIELD {
            Message::Bitfield { bitfield: payload.skip(1) }
        } else if id == ID_REQUEST && n == 12 {
            Message::Request {
                index: spec_u32_from_be(payload, 1),
                begin: spec_u32_from_be(payload, 5),
                length: spec_u32_from_be(payload, 9),
            }
        } else if id == ID_PIECE && n >= 8 {
            Message::Piece {
                index: spec_u32_from_be(payload, 1),
                begin: spec_u32_from_be(payload, 5),
                block: payload.skip(9),
            }
        } else if id == ID_CANCEL && n == 12 {
            Message::Cancel {
                index: spec_u32_from_be(payload, 1),
                begin: spec_u32_from_be(payload, 5),
                length: spec_u32_from_be(payload, 9),
            }
        } else {
            Message::Unknown { id, payload: payload.skip(1) }
        }
    }
}

/// Whether `m` is what `spec_read` gives for its own payload: every message
/// but an `Unknown` that carries the id and content of a known message.
pub open spec fn is_canonical(m: Message) -> bool {
    m matches Message::Unknown { id, payload } ==> {
        let n = payload.len();
        &&& !(id == ID_CHOKE && n == 0)
        &&& !(id == ID_UNCHOKE && n == 0)
        &&& !(id == ID_INTERESTED && n == 0)
        &&& !(id == ID_NOT_INTERESTED && n == 0)
        &&& id != ID_BITFIELD
        &&& !(id == ID_REQUEST && n == 12)
        &&& !(id == ID_PIECE && n >= 8)
        &&& !(id == ID_CANCEL && n == 12)
    }
}

/// A number whose big-endian bytes stand at `at` is read from there.
pub proof fn lemma_u32_read_at(p: Seq<u8>, at: int, x: u32)
    requires
        0 <= at,
        at + 4 <= p.len(),
        p.subrange(at, at + 4) == spec_u32_be(x),
    ensures
        spec_u32_from_be(p, at) == x,
{
    lemma_u32_be_roundtrip(x);
    let b = spec_u32_be(x);
    let part = p.subrange(at, at + 4);
    assert(part[0] == p[at] && part[1] == p[at + 1] && part[2] == p[at + 2] && part[3] == p[at + 3]);
    assert(spec_u32_from_be(p, at) == spec_u32_from_be(b, 0));
}

/// A payload of an id and three numbers holds the numbers at the indices 1,
/// 5 and 9.
proof fn lemma_read_three(id: u8, first: u32, second: u32, third: u32)
    ensures
        ({
            let p = seq![id] + spec_u32_be(first) + spec_u32_be(second) + spec_u32_be(third);
            &&& p.len() == 13
            &&& p[0] == id
            &&& spec_u32_from_be(p, 1) == first
            &&& spec_u32_from_be(p, 5) == second
            &&& spec_u32_from_be(p, 9) == third
        }),
{
    let p = seq![id] + spec_u32_be(first) + spec_u32_be(second) + spec_u32_be(third);
    assert(p.subrange(1, 5) =~= spec_u32_be(first));
    assert(p.subrange(5, 9) =~= spec_u32_be(second));
    assert(p.subrange(9, 13) =~= spec_u32_be(third));
    lemma_u32_read_at(p, 1, first);
    lemma_u32_read_at(p, 5, second);
    lemma_u32_read_at(p, 9, third);
}

/// A payload of an id, two numbers and a block holds the numbers at the
/// indices 1 and 5 and the block behind them.
proof fn lemma_read_two(id: u8, first: u32, second: u32, block: Seq<u8>)
    ensures
        ({
            let p = seq![id] + spec_u32_be(first) + spec_u32_be(second) + block;
            &&& p.len() == 9 + block.len()
            &&& p[0] == id
            &&& spec_u32_from_be(p, 1) == first
            &&& spec_u32_from_be(p, 5) == second
            &&& p.skip(9) == block
        }),
{
    let p = seq![id] + spec_u32_be(first) + spec_u32_be(second) + block;
    assert(p.subrange(1, 5) =~= spec_u32_be(first));
    assert(p.subrange(5, 9) =~= spec_u32_be(second));
    assert(p.skip(9) =~= block);
    lemma_u32_read_at(p, 1, first);
    lemma_u32_read_at(p, 5, second);
}

/// Reading the payload of a message gives the message back.
pub proof fn lemma_read_payload(m: Message)
    requires
        is_canonical(m),
    ensures
        spec_read(spec_payload(m)) == m,
{
    let p = spec_payload(m);
    match m {
        Message::Bitfield { bitfield } => {
            assert(p.skip(1) =~= bitfield);
        },
        Message::Request { index, begin, length } => {
            lemma_read_three(ID_REQUEST, index, begin, length);
        },
        Message::Cancel { index, begin, length } => {
            lemma_read_three(ID_CANCEL, index, begin, length);
        },
        Message::Piece { index, begin, block } => {
            lemma_read_two(ID_PIECE, index, begin, block);
        },
        Message::Unknown { id, payload } => {
            assert(p.skip(1) =~= payload);
        },
        _ => {},
    }
}

/// A frame is cut where its prefix says: the prefix holds the length of the
/// payload, and the payload is what follows the prefix.
pub proof fn lemma_frame_splits(m: Message)
    requires
        spec_payload(m).len() <= u32::MAX,
    ensures
        spec_frame(m).len() == 4 + spec_payload(m).len(),
        spec_u32_from_be(spec_frame(m), 0) == spec_payload(m).len(),
        spec_frame(m).skip(4) == spec_payload(m),
        spec_read(spec_frame(m).skip(4)) == spec_read(spec_payload(m)),
{
    let frame = spec_frame(m);
    let length = spec_payload(m).len() as u32;
    assert(frame.subrange(0, 4) =~= spec_u32_be(length));
    lemma_u32_read_at(frame, 0, length);
    assert(frame.skip(4) =~= spec_payload(m));
}

/// Whether bit `piece` of the bitmap is set. Bits are counted from the most
/// significant bit of the first byte; a bit past the end is not set.
pub open spec fn bitfield_has(bitfield: Seq<u8>, piece: u32) -> bool {
    piece / 8 < bitfield.len() && (bitfield[(piece / 8) as int] >> ((7 - piece % 8) as u8)) & 1u8 == 1u8
}

/// Whether bit `piece` of the bitmap is set.
pub fn bitfield_contains(bitfield: &[u8], piece: u32) -> (r: bool)
    ensures
        r == bitfield_has(bitfield@, piece),
{
    let byte_index: usize = (piece / 8) as usize;
    if byte_index >= bitfield.len() {
        return false;
    }
    let shift: u8 = (7 - piece % 8) as u8;
    (bitfield[byte_index] >> shift) & 1u8 == 1u8
}

impl TorrentMessage {
    /// The message that the payload of a frame holds. Never fails: what is
    /// not recognised comes back as `Unknown`.
    pub fn read(payload: &[u8]) -> (m: TorrentMessage)
        ensures
            m@ == spec_read(payload@),
    {
        if payload.len() == 0 {
            return TorrentMessage::KeepAlive;
        }
        let id = payload[0];
        let n = payload.len() - 1;
        if id == ID_CHOKE && n == 0 {
            TorrentMessage::Choke
        } else if id == ID_UNCHOKE && n == 0 {
            TorrentMessage::Unchoke
        } else if id == ID_INTERESTED && n == 0 {
            TorrentMessage::Interested
        } else if id == ID_NOT_INTERESTED && n == 0 {
            TorrentMessage::NotInterested
        } else if id == ID_BITFIELD {
            let bitfield = copy_from(payload, 1);
            TorrentMessage::Bitfield { bitfield }
        } else if id == ID_REQUEST && n == 12 {
            TorrentMessage::Request {
                index: read_u32_be(payload, 1),
                begin: read_u32_be(payload, 5),
                length: read_u32_be(payload, 9),
            }
        } else if id == ID_PIECE && n >= 8 {
            let block = copy_from(payload, 9);
            TorrentMessage::Piece { index: read_u32_be(payload, 1), begin: read_u32_be(payload, 5), block }
        } else if id == ID_CANCEL && n == 12 {
            TorrentMessage::Cancel {
                index: read_u32_be(payload, 1),
                begin: read_u32_be(payload, 5),
                length: read_u32_be(payload, 9),
            }
        } else {
            let rest = copy_from(payload, 1);
            TorrentMessage::Unknown { id, payload: rest }
        }
    }

    /// The frame of this message, length prefix included.
    pub fn to_bytes(&self) -> (frame: Vec<u8>)
        requires
            spec_payload(self@).len() <= u32::MAX,
        ensures
            frame@ == spec_frame(self@),
    {
        let mut out: Vec<u8> = Vec::new();
        match self {
            TorrentMessage::KeepAlive => {
                push_u32_be(&mut out, 0);
            },
            TorrentMessage::Choke => {
                push_u32_be(&mut out, 1);
                out.push(ID_CHOKE);
            },
            TorrentMessage::Unchoke => {
                push_u32_be(&mut out, 1);
                out.push(ID_UNCHOKE);
            },
            TorrentMessage::Interested => {
                push_u32_be(&mut out, 1);
                out.push(ID_INTERESTED);
            },
            TorrentMessage::NotInterested => {
                push_u32_be(&mut out, 1);
                out.push(ID_NOT_INTERESTED);
            },
            TorrentMessage::Bitfield { bitfield } => {
                push_u32_be(&mut out, (bitfield.len() + 1) as u32);
                out.push(ID_BITFIELD);
                push_all(&mut out, bitfield.as_slice());
            },
            TorrentMessage::Request { index, begin, length } => {
                push_u32_be(&mut out, 13);
                out.push(ID_REQUEST);
                push_u32_be(&mut out, *index);
                push_u32_be(&mut out, *begin);
                push_u32_be(&mut out, *length);
            },
            TorrentMessage::Piece { index, begin, block } => {
                push_u32_be(&mut out, (block.len() + 9) as u32);
                out.push(ID_PIECE);
                push_u32_be(&mut out, *index);
                push_u32_be(&mut out, *begin);
                push_all(&mut out, block.as_slice());
            },
            TorrentMessage::Cancel { index, begin, length } => {
                push_u32_be(&mut out, 13);
                out.push(ID_CANCEL);
                push_u32_be(&mut out, *index);
                push_u32_be(&mut out, *begin);
                push_u32_be(&mut out, *length);
            },
            TorrentMessage::Unknown { id, payload } => {
                push_u32_be(&mut out, (payload.len() + 1) as u32);
                out.push(*id);
                push_all(&mut out, payload.as_slice());
            },
        }
        assert(out@ =~= spec_frame(self@));
        out
    }

    /// Whether this message is a bitmap in which the bit of `piece_id` is
    /// set. Any other message claims no piece.
    pub fn source_has_piece(&self, piece_id: u32) -> (r: bool)
        ensures
            r == (self@ matches Message::Bitfield { bitfield } && bitfield_has(bitfield, piece_id)),
    {
        match self {
            TorrentMessage::Bitfield { bitfield } => bitfield_contains(bitfield.as_slice(), piece_id),
            _ => false,
        }
    }
}

} // verus!
