//! Encoding and decoding of bencoded values.
//!
//! An integer is written `i<decimal>e`, a byte string `<length>:<bytes>`, a
//! list `l<values>e` and a dictionary `d(<byte string><value>)*e`. The
//! encoder writes the entries of a dictionary in key order. The decoder
//! takes the entries in any order and, where a key comes twice, keeps the
//! later value; it refuses input that nests containers more than
//! `MAX_DEPTH` deep.

use vstd::prelude::*;
use crate::bencode::{dict_insert, lemma_insert_members, lemma_list_view, list_view, Bencode, BencodeValue, Dict};
use crate::bencode::laws::{lemma_entries_depth_bound, lemma_list_depth_bound};
use crate::byte_string::copy_range;
use crate::decimal::{
    digits_end, digits_value, is_digit, push_digits, push_int_text, scan_digits, spec_digits, spec_int_text, DIGIT_NINE,
    DIGIT_ZERO, MINUS_SIGN,
};
use crate::byte_string::push_all;

verus! {

/// How many containers may be nested in what `decode` accepts.
pub const MAX_DEPTH: usize = 64;

/// The byte `i`, with which an integer starts.
pub const INTEGER_TAG: u8 = 0x69;

/// The byte `l`, with which a list starts.
pub const LIST_TAG: u8 = 0x6c;

/// The byte `d`, with which a dictionary starts.
pub const DICTIONARY_TAG: u8 = 0x64;

/// The byte `e`, with which an integer, a list and a dictionary end.
pub const END_TAG: u8 = 0x65;

/// The colon that stands between the length of a byte string and its bytes.
pub const LENGTH_END: u8 = 0x3a;

/// Why a sequence of bytes was not decoded.
#[derive(Debug, Clone, Copy, PartialEq, Eq, Structural)]
pub enum CodecError {
    /// The bytes are not an encoding: a token does not end, a length is not
    /// a number, the input stops early, an integer is not written as the
    /// grammar asks or does not fit in 64 bits, or a dictionary key is not a
    /// byte string.
    MalformedEncoding,
    /// Containers are nested more than `MAX_DEPTH` deep.
    DepthExceeded,
}

/// The encoding of a byte string: its length in decimal, a colon, the bytes.
pub open spec fn spec_encode_bytes(b: Seq<u8>) -> Seq<u8> {
    spec_digits(b.len()) + seq![LENGTH_END] + b
}

/// The canonical encoding of `v`.
pub open spec fn spec_encode(v: Bencode) -> Seq<u8>
    decreases v,
{
    match v {
        Bencode::Integer(i) => seq![INTEGER_TAG] + spec_int_text(i) + seq![END_TAG],
        Bencode::Bytes(b) => spec_encode_bytes(b),
        Bencode::List(items) => seq![LIST_TAG] + spec_encode_list(items) + seq![END_TAG],
        Bencode::Dict(entries) => seq![DICTIONARY_TAG] + spec_encode_entries(entries) + seq![END_TAG],
    }
}

/// The encodings of `items`, one after the other.
pub open spec fn spec_encode_list(items: Seq<Bencode>) -> Seq<u8>
    decreases items,
{
    if items.len() == 0 {
        Seq::empty()
    } else {
        spec_encode_list(items.drop_last()) + spec_encode(items.last())
    }
}

/// The encodings of `entries`, one after the other and in the order in which
/// they stand: each key as a byte string, then its value.
pub open spec fn spec_encode_entries(entries: Seq<(Seq<u8>, Bencode)>) -> Seq<u8>
    decreases entries,
{
    if entries.len() == 0 {
        Seq::empty()
    } else {
        spec_encode_entries(entries.drop_last()) + spec_encode_bytes(entries.last().0) + spec_encode(
            entries.last().1,
        )
    }
}

/// The byte string that starts at `pos`, and the index after it: a run of
/// digits, a colon, and as many bytes as the digits say.
pub open spec fn spec_decode_bytes_at(s: Seq<u8>, pos: int) -> Result<(Seq<u8>, int), CodecError> {
    let end = digits_end(s, pos);
    if pos < 0 || end == pos || end >= s.len() || s[end] != LENGTH_END {
        Err(CodecError::MalformedEncoding)
    } else {
        let n = digits_value(s.subrange(pos, end));
        if end + 1 + n > s.len() {
            Err(CodecError::MalformedEncoding)
        } else {
            Ok((s.subrange(end + 1, end + 1 + n), end + 1 + n))
        }
    }
}

/// The integer whose text starts at `pos`, behind the `i`, and the index
/// after its `e`. The text is an optional minus sign and digits, without a
/// leading zero but for `0` itself, and never `-0`; the number fits in 64
/// bits.
pub open spec fn spec_decode_int_at(s: Seq<u8>, pos: int) -> Result<(int, int), CodecError> {
    let negative = 0 <= pos < s.len() && s[pos] == MINUS_SIGN;
    let start = if negative { pos + 1 } else { pos };
    let end = digits_end(s, start);
    if pos < 0 || end == start || end >= s.len() || s[end] != END_TAG {
        Err(CodecError::MalformedEncoding)
    } else if s[start] == DIGIT_ZERO && (end > start + 1 || negative) {
        Err(CodecError::MalformedEncoding)
    } else {
        let magnitude = digits_value(s.subrange(start, end));
        let value = if negative { -magnitude } else { magnitude };
        if value < i64::MIN || value > i64::MAX {
            Err(CodecError::MalformedEncoding)
        } else {
            Ok((value, end + 1))
        }
    }
}

/// The value that starts at `pos`, and the index after it, when `depth`
/// more containers may be opened.
pub open spec fn spec_decode_at(s: Seq<u8>, pos: int, depth: nat) -> Result<(Bencode, int), CodecError>
    decreases depth, s.len() - pos, 0nat,
{
    if pos < 0 || pos >= s.len() {
        Err(CodecError::MalformedEncoding)
    } else if s[pos] == INTEGER_TAG {
        match spec_decode_int_at(s, pos + 1) {
            Ok((i, next)) => Ok((Bencode::Integer(i), next)),
            Err(e) => Err(e),
        }
    } else if s[pos] == LIST_TAG {
        if depth == 0 {
            Err(CodecError::DepthExceeded)
        } else {
            match spec_decode_list_at(s, pos + 1, (depth - 1) as nat, Seq::empty()) {
                Ok((items, next)) => Ok((Bencode::List(items), next)),
                Err(e) => Err(e),
            }
        }
    } else if s[pos] == DICTIONARY_TAG {
        if depth == 0 {
            Err(CodecError::DepthExceeded)
        } else {
            match spec_decode_dict_at(s, pos + 1, (depth - 1) as nat, Seq::empty()) {
                Ok((entries, next)) => Ok((Bencode::Dict(entries), next)),
                Err(e) => Err(e),
            }
        }
    } else if is_digit(s[pos]) {
        match spec_decode_bytes_at(s, pos) {
            Ok((b, next)) => Ok((Bencode::Bytes(b), next)),
            Err(e) => Err(e),
        }
    } else {
        Err(CodecError::MalformedEncoding)
    }
}

/// The items of a list from `pos` on, behind the ones in `acc`, and the
/// index after the list's `e`. (Every value ends behind where it starts and
/// inside `s`, see `lemma_decode_advances`; the test on `next` is there for
/// the definition to be seen to end.)
pub open spec fn spec_decode_list_at(s: Seq<u8>, pos: int, depth: nat, acc: Seq<Bencode>) -> Result<
    (Seq<Bencode>, int),
    CodecError,
>
    decreases depth, s.len() - pos, 1nat,
{
    if pos < 0 || pos >= s.len() {
        Err(CodecError::MalformedEncoding)
    } else if s[pos] == END_TAG {
        Ok((acc, pos + 1))
    } else {
        match spec_decode_at(s, pos, depth) {
            Err(e) => Err(e),
            Ok((v, next)) => if pos < next <= s.len() {
                spec_decode_list_at(s, next, depth, acc.push(v))
            } else {
                Err(CodecError::MalformedEncoding)
            },
        }
    }
}

/// The entries of a dictionary from `pos` on, put into `acc` one by one,
/// and the index after the dictionary's `e`. A key is a byte string; a key
/// that is already there gets the later value.
pub open spec fn spec_decode_dict_at(s: Seq<u8>, pos: int, depth: nat, acc: Seq<(Seq<u8>, Bencode)>) -> Result<
    (Seq<(Seq<u8>, Bencode)>, int),
    CodecError,
>
    decreases depth, s.len() - pos, 1nat,
{
    if pos < 0 || pos >= s.len() {
        Err(CodecError::MalformedEncoding)
    } else if s[pos] == END_TAG {
        Ok((acc, pos + 1))
    } else {
        match spec_decode_bytes_at(s, pos) {
            Err(e) => Err(e),
            Ok((key, at)) => if pos < at <= s.len() {
                match spec_decode_at(s, at, depth) {
                    Err(e) => Err(e),
                    Ok((v, next)) => if at < next <= s.len() {
                        spec_decode_dict_at(s, next, depth, dict_insert(acc, key, v))
                    } else {
                        Err(CodecError::MalformedEncoding)
                    },
                }
            } else {
                Err(CodecError::MalformedEncoding)
            },
        }
    }
}

/// The value that `s` starts with and the number of bytes it takes.
pub open spec fn spec_decode(s: Seq<u8>) -> Result<(Bencode, int), CodecError> {
    spec_decode_at(s, 0, MAX_DEPTH as nat)
}

/// Appends the encoding of the byte string `b` to `out`.
fn encode_bytes_into(b: &[u8], out: &mut Vec<u8>)
    ensures
        final(out)@ == old(out)@ + spec_encode_bytes(b@),
{
    push_digits(out, b.len() as u64);
    out.push(LENGTH_END);
    push_all(out, b);
    assert(out@ =~= old(out)@ + spec_encode_bytes(b@));
}

/// Appends the canonical encoding of `value` to `out`.
pub fn encode_into(value: &BencodeValue, out: &mut Vec<u8>)
    ensures
        final(out)@ == old(out)@ + spec_encode(value@),
    decreases value,
{
    match value {
        BencodeValue::Integer(i) => {
            out.push(INTEGER_TAG);
            push_int_text(out, *i);
            out.push(END_TAG);
            assert(out@ =~= old(out)@ + spec_encode(value@));
        },
        BencodeValue::String(b) => {
            encode_bytes_into(b.as_slice(), out);
        },
        BencodeValue::List(items) => {
            out.push(LIST_TAG);
            let ghost all = value@->List_0;
            let mut k: usize = 0;
            assert(all.take(0) =~= Seq::<Bencode>::empty());
            while k < items.len()
                invariant
                    k <= items.len(),
                    value@ == Bencode::List(all),
                    value == BencodeValue::List(*items),
                    all.len() == items.len(),
                    out@ == old(out)@ + seq![LIST_TAG] + spec_encode_list(all.take(k as int)),
                decreases items.len() - k,
            {
                assert(all.take(k + 1).drop_last() =~= all.take(k as int));
                assert(all.take(k + 1).last() == items[k as int]@);
                encode_into(&items[k], out);
                k += 1;
                assert(out@ =~= old(out)@ + seq![LIST_TAG] + spec_encode_list(all.take(k as int)));
            }
            assert(all.take(items.len() as int) =~= all);
            out.push(END_TAG);
            assert(out@ =~= old(out)@ + spec_encode(value@));
        },
        BencodeValue::Dictionary(d) => {
            out.push(DICTIONARY_TAG);
            let ghost all = d@;
            let mut k: usize = 0;
            assert(all.take(0) =~= Seq::<(Seq<u8>, Bencode)>::empty());
            while k < d.entries.len()
                invariant
                    k <= d.entries.len(),
                    all == d@,
                    value is Dictionary,
                    value->Dictionary_0 == *d,
                    all.len() == d.entries.len(),
                    out@ == old(out)@ + seq![DICTIONARY_TAG] + spec_encode_entries(all.take(k as int)),
                decreases d.entries.len() - k,
            {
                assert(all.take(k + 1).drop_last() =~= all.take(k as int));
                assert(all.take(k + 1).last() == (d.entries[k as int].0@, d.entries[k as int].1@));
                encode_bytes_into(d.entries[k].0.as_slice(), out);
                assert(decreases_to!(value => d.entries[k as int].1)) by {
                    let whole = value->Dictionary_0;
                    assert(decreases_to!(value => whole));
                    assert(decreases_to!(whole => whole.entries));
                    assert(decreases_to!(whole.entries => whole.entries[k as int]));
                    assert(decreases_to!(whole.entries[k as int] => whole.entries[k as int].1));
                }
                encode_into(&d.entries[k].1, out);
                k += 1;
                assert(out@ =~= old(out)@ + seq![DICTIONARY_TAG] + spec_encode_entries(all.take(k as int)));
            }
            assert(all.take(d.entries.len() as int) =~= all);
            out.push(END_TAG);
            assert(out@ =~= old(out)@ + spec_encode(value@));
        },
    }
}

/// Reads the byte string that starts at `pos`.
fn decode_bytes_at(bytes: &[u8], pos: usize) -> (r: Result<(Vec<u8>, usize), CodecError>)
    requires
        pos <= bytes.len(),
    ensures
        match r {
            Ok((b, next)) => spec_decode_bytes_at(bytes@, pos as int) == Ok::<(Seq<u8>, int), CodecError>(
                (b@, next as int),
            ) && pos < next <= bytes.len(),
            Err(e) => spec_decode_bytes_at(bytes@, pos as int) == Err::<(Seq<u8>, int), CodecError>(e),
        },
{
    let (end, length) = scan_digits(bytes, pos, bytes.len() as u64);
    if end == pos || end >= bytes.len() || bytes[end] != LENGTH_END {
        return Err(CodecError::MalformedEncoding);
    }
    match length {
        None => Err(CodecError::MalformedEncoding),
        Some(n) => {
            let n: usize = n as usize;
            if n > bytes.len() - (end + 1) {
                Err(CodecError::MalformedEncoding)
            } else {
                Ok((copy_range(bytes, end + 1, end + 1 + n), end + 1 + n))
            }
        },
    }
}

/// Reads the integer whose text starts at `pos`, behind the `i`.
fn decode_int_at(bytes: &[u8], pos: usize) -> (r: Result<(i64, usize), CodecError>)
    requires
        pos <= bytes.len(),
    ensures
        match r {
            Ok((i, next)) => spec_decode_int_at(bytes@, pos as int) == Ok::<(int, int), CodecError>(
                (i as int, next as int),
            ) && pos < next <= bytes.len(),
            Err(e) => spec_decode_int_at(bytes@, pos as int) == Err::<(int, int), CodecError>(e),
        },
{
    let negative = pos < bytes.len() && bytes[pos] == MINUS_SIGN;
    let start: usize = if negative {
        pos + 1
    } else {
        pos
    };
    let (end, magnitude) = scan_digits(bytes, start, 0x8000_0000_0000_0000u64);
    if end == start || end >= bytes.len() || bytes[end] != END_TAG {
        return Err(CodecError::MalformedEncoding);
    }
    if bytes[start] == DIGIT_ZERO && (end > start + 1 || negative) {
        return Err(CodecError::MalformedEncoding);
    }
    match magnitude {
        None => Err(CodecError::MalformedEncoding),
        Some(m) => {
            if negative {
                if m == 0x8000_0000_0000_0000u64 {
                    Ok((i64::MIN, end + 1))
                } else {
                    Ok((-(m as i64), end + 1))
                }
            } else if m > 0x7fff_ffff_ffff_ffffu64 {
                Err(CodecError::MalformedEncoding)
            } else {
                Ok((m as i64, end + 1))
            }
        },
    }
}

/// Reads the value that starts at `pos`, with `depth` more containers
/// allowed.
#[verifier::loop_isolation(false)]
pub fn decode_at(bytes: &[u8], pos: usize, depth: usize) -> (r: Result<(BencodeValue, usize), CodecError>)
    ensures
        match r {
            Ok((v, next)) => spec_decode_at(bytes@, pos as int, depth as nat) == Ok::<(Bencode, int), CodecError>(
                (v@, next as int),
            ) && pos < next <= bytes.len() && v@.wf() && v@.depth() <= depth,
            Err(e) => spec_decode_at(bytes@, pos as int, depth as nat) == Err::<(Bencode, int), CodecError>(e),
        },
    decreases depth,
{
    if pos >= bytes.len() {
        return Err(CodecError::MalformedEncoding);
    }
    let tag = bytes[pos];
    if tag == INTEGER_TAG {
        match decode_int_at(bytes, pos + 1) {
            Ok((i, next)) => Ok((BencodeValue::Integer(i), next)),
            Err(e) => Err(e),
        }
    } else if tag == LIST_TAG {
        if depth == 0 {
            return Err(CodecError::DepthExceeded);
        }
        let mut items: Vec<BencodeValue> = Vec::new();
        let mut cur: usize = pos + 1;
        assert(list_view(items@) =~= Seq::<Bencode>::empty());
        loop
            invariant
                pos < cur <= bytes.len(),
                depth > 0,
                spec_decode_list_at(bytes@, pos + 1, (depth - 1) as nat, Seq::empty()) == spec_decode_list_at(
                    bytes@,
                    cur as int,
                    (depth - 1) as nat,
                    list_view(items@),
                ),
                forall|i: int| 0 <= i < items@.len() ==> (#[trigger] items@[i])@.wf(),
                forall|i: int| 0 <= i < items@.len() ==> (#[trigger] items@[i])@.depth() <= depth - 1,
            decreases bytes.len() - cur,
        {
            if cur >= bytes.len() {
                return Err(CodecError::MalformedEncoding);
            }
            if bytes[cur] == END_TAG {
                proof {
                    lemma_list_view(items);
                    lemma_list_depth_bound(list_view(items@), (depth - 1) as nat);
                }
                return Ok((BencodeValue::List(items), cur + 1));
            }
            match decode_at(bytes, cur, depth - 1) {
                Err(e) => {
                    return Err(e);
                },
                Ok((v, next)) => {
                    assert(list_view(items@.push(v)) =~= list_view(items@).push(v@));
                    items.push(v);
                    cur = next;
                },
            }
        }
    } else if tag == DICTIONARY_TAG {
        if depth == 0 {
            return Err(CodecError::DepthExceeded);
        }
        let mut dict = Dict::new();
        let mut cur: usize = pos + 1;
        loop
            invariant
                pos < cur <= bytes.len(),
                depth > 0,
                spec_decode_dict_at(bytes@, pos + 1, (depth - 1) as nat, Seq::empty()) == spec_decode_dict_at(
                    bytes@,
                    cur as int,
                    (depth - 1) as nat,
                    dict@,
                ),
                dict.wf(),
                forall|i: int| 0 <= i < dict@.len() ==> (#[trigger] dict@[i]).1.wf(),
                forall|i: int| 0 <= i < dict@.len() ==> (#[trigger] dict@[i]).1.depth() <= depth - 1,
            decreases bytes.len() - cur,
        {
            if cur >= bytes.len() {
                return Err(CodecError::MalformedEncoding);
            }
            if bytes[cur] == END_TAG {
                proof {
                    lemma_entries_depth_bound(dict@, (depth - 1) as nat);
                }
                return Ok((BencodeValue::Dictionary(dict), cur + 1));
            }
            let (key, at) = match decode_bytes_at(bytes, cur) {
                Err(e) => {
                    return Err(e);
                },
                Ok(found) => found,
            };
            match decode_at(bytes, at, depth - 1) {
                Err(e) => {
                    return Err(e);
                },
                Ok((v, next)) => {
                    proof {
                        lemma_insert_members(dict@, key@, v@);
                    }
                    dict.insert(key, v);
                    cur = next;
                },
            }
        }
    } else if tag >= DIGIT_ZERO && tag <= DIGIT_NINE {
        match decode_bytes_at(bytes, pos) {
            Ok((b, next)) => Ok((BencodeValue::String(b), next)),
            Err(e) => Err(e),
        }
    } else {
        Err(CodecError::MalformedEncoding)
    }
}

/// Decodes the value that `bytes` starts with and says how many bytes it
/// takes; what follows the value is not looked at.
pub fn decode(bytes: &[u8]) -> (r: Result<(BencodeValue, usize), CodecError>)
    ensures
        match r {
            Ok((v, consumed)) => spec_decode(bytes@) == Ok::<(Bencode, int), CodecError>((v@, consumed as int))
                && 0 < consumed <= bytes.len() && v@.wf() && v@.depth() <= MAX_DEPTH,
            Err(e) => spec_decode(bytes@) == Err::<(Bencode, int), CodecError>(e),
        },
{
    decode_at(bytes, 0, MAX_DEPTH)
}

/// The canonical encoding of `value`: the entries of every dictionary come
/// in the byte-lexicographic order of their keys, in which a `Dict` holds
/// them.
pub fn encode(value: &BencodeValue) -> (out: Vec<u8>)
    ensures
        out@ == spec_encode(value@),
{
    let mut out: Vec<u8> = Vec::new();
    encode_into(value, &mut out);
    assert(out@ =~= spec_encode(value@));
    out
}

} // verus!
