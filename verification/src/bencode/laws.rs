//! What holds of the codec as a whole: a value that was encoded is decoded
//! to itself, and a dictionary does not depend on the order in which its
//! entries were put in.

use vstd::prelude::*;
use crate::bencode::codec::{
    spec_decode, spec_decode_at, spec_decode_bytes_at, spec_decode_dict_at, spec_decode_int_at, spec_decode_list_at,
    spec_encode, spec_encode_bytes, spec_encode_entries, spec_encode_list, CodecError, DICTIONARY_TAG, END_TAG,
    INTEGER_TAG, LENGTH_END, LIST_TAG, MAX_DEPTH,
};
use crate::bencode::{
    dict_insert, dict_lookup, entries_depth, index_of_key, keys_sorted, lemma_index_of_key, lemma_insert_greatest,
    lemma_insert_members, lemma_insert_sorted, lemma_lower_bound, list_depth, lower_bound, Bencode,
};
use crate::byte_string::{bytes_lt, lemma_bytes_lt_asymmetric, lemma_bytes_lt_irreflexive};
use crate::decimal::{
    digits_end, digits_value, is_digit, lemma_digits, lemma_digits_end, lemma_digits_end_of_run, spec_digits,
    spec_int_text, DIGIT_ZERO, MINUS_SIGN,
};

verus! {

/// `part` stands in `s` from index `pos` on.
pub open spec fn holds_at(s: Seq<u8>, pos: int, part: Seq<u8>) -> bool {
    0 <= pos && pos + part.len() <= s.len() && s.subrange(pos, pos + part.len()) == part
}

proof fn lemma_holds_at_split(s: Seq<u8>, pos: int, a: Seq<u8>, b: Seq<u8>)
    requires
        holds_at(s, pos, a + b),
    ensures
        holds_at(s, pos, a),
        holds_at(s, pos + a.len(), b),
{
    let whole = s.subrange(pos, pos + (a + b).len());
    assert(s.subrange(pos, pos + a.len()) =~= whole.subrange(0, a.len() as int));
    assert(whole.subrange(0, a.len() as int) =~= a);
    assert(s.subrange(pos + a.len(), pos + a.len() + b.len()) =~= whole.subrange(
        a.len() as int,
        (a + b).len() as int,
    ));
    assert(whole.subrange(a.len() as int, (a + b).len() as int) =~= b);
}

proof fn lemma_holds_at_index(s: Seq<u8>, pos: int, part: Seq<u8>, i: int)
    requires
        holds_at(s, pos, part),
        0 <= i < part.len(),
    ensures
        s[pos + i] == part[i],
{
    assert(s.subrange(pos, pos + part.len())[i] == s[pos + i]);
}

/// The digits of `n` that stand at `pos` and are followed by something else
/// are read as `n`.
proof fn lemma_read_digits(n: nat, s: Seq<u8>, pos: int)
    requires
        holds_at(s, pos, spec_digits(n)),
        pos + spec_digits(n).len() < s.len(),
        !is_digit(s[pos + spec_digits(n).len()]),
    ensures
        digits_end(s, pos) == pos + spec_digits(n).len(),
        digits_value(s.subrange(pos, pos + spec_digits(n).len())) == n,
        spec_digits(n).len() >= 1,
        s[pos] == DIGIT_ZERO <==> n == 0,
        n == 0 ==> spec_digits(n).len() == 1,
{
    let d = spec_digits(n);
    lemma_digits(n);
    assert forall|i: int| pos <= i < pos + d.len() implies is_digit(#[trigger] s[i]) by {
        lemma_holds_at_index(s, pos, d, i - pos);
    }
    lemma_digits_end_of_run(s, pos, pos + d.len());
    lemma_holds_at_index(s, pos, d, 0);
}

/// An encoded byte string is read as that byte string.
pub proof fn lemma_decode_bytes_encoded(b: Seq<u8>, s: Seq<u8>, pos: int)
    requires
        holds_at(s, pos, spec_encode_bytes(b)),
    ensures
        spec_decode_bytes_at(s, pos) == Ok::<(Seq<u8>, int), CodecError>((b, pos + spec_encode_bytes(b).len())),
        is_digit(s[pos]),
{
    let d = spec_digits(b.len());
    lemma_digits(b.len());
    lemma_holds_at_split(s, pos, d + seq![LENGTH_END], b);
    lemma_holds_at_split(s, pos, d, seq![LENGTH_END]);
    lemma_holds_at_index(s, pos + d.len(), seq![LENGTH_END], 0);
    lemma_read_digits(b.len(), s, pos);
    lemma_holds_at_index(s, pos, d, 0);
}

/// The text of a 64-bit integer, followed by `e`, is read as that integer.
proof fn lemma_decode_int_encoded(i: int, s: Seq<u8>, pos: int)
    requires
        i64::MIN <= i <= i64::MAX,
        holds_at(s, pos, spec_int_text(i) + seq![END_TAG]),
    ensures
        spec_decode_int_at(s, pos) == Ok::<(int, int), CodecError>((i, pos + spec_int_text(i).len() + 1)),
{
    let text = spec_int_text(i);
    lemma_holds_at_split(s, pos, text, seq![END_TAG]);
    lemma_holds_at_index(s, pos + text.len(), seq![END_TAG], 0);
    if i < 0 {
        let d = spec_digits((-i) as nat);
        lemma_holds_at_split(s, pos, seq![MINUS_SIGN], d);
        lemma_holds_at_index(s, pos, seq![MINUS_SIGN], 0);
        lemma_read_digits((-i) as nat, s, pos + 1);
    } else {
        lemma_read_digits(i as nat, s, pos);
        lemma_digits(i as nat);
        lemma_holds_at_index(s, pos, text, 0);
    }
}

/// An encoding is at least two bytes long and starts with `i`, `l`, `d` or a
/// digit, never with `e`.
pub proof fn lemma_encode_starts(v: Bencode)
    ensures
        spec_encode(v).len() >= 2,
        v is Integer ==> spec_encode(v)[0] == INTEGER_TAG,
        v is List ==> spec_encode(v)[0] == LIST_TAG,
        v is Dict ==> spec_encode(v)[0] == DICTIONARY_TAG,
        v is Bytes ==> is_digit(spec_encode(v)[0]),
{
    match v {
        Bencode::Integer(i) => {
            if i < 0 {
                lemma_digits((-i) as nat);
            } else {
                lemma_digits(i as nat);
            }
        },
        Bencode::Bytes(b) => {
            lemma_digits(b.len());
        },
        _ => {},
    }
}

/// The encoding of a list that is not empty is the encoding of its first
/// item, then that of the others.
pub proof fn lemma_encode_list_first(items: Seq<Bencode>)
    requires
        items.len() > 0,
    ensures
        spec_encode_list(items) == spec_encode(items[0]) + spec_encode_list(items.drop_first()),
    decreases items.len(),
{
    if items.len() == 1 {
        assert(items.drop_last() =~= Seq::<Bencode>::empty());
        assert(items.drop_first() =~= Seq::<Bencode>::empty());
        assert(spec_encode_list(items.drop_last()) =~= Seq::<u8>::empty());
        assert(spec_encode_list(items) =~= spec_encode(items[0]) + spec_encode_list(items.drop_first()));
    } else {
        lemma_encode_list_first(items.drop_last());
        assert(items.drop_last().drop_first() =~= items.drop_first().drop_last());
        assert(items.drop_last()[0] == items[0]);
        assert(items.drop_first().last() == items.last());
        assert(spec_encode_list(items) =~= spec_encode(items[0]) + spec_encode_list(items.drop_first()));
    }
}

/// The encoding of entries, of which there is at least one, is the encoding
/// of the first key and value, then that of the others.
pub proof fn lemma_encode_entries_first(entries: Seq<(Seq<u8>, Bencode)>)
    requires
        entries.len() > 0,
    ensures
        spec_encode_entries(entries) == spec_encode_bytes(entries[0].0) + spec_encode(entries[0].1)
            + spec_encode_entries(entries.drop_first()),
    decreases entries.len(),
{
    if entries.len() == 1 {
        assert(entries.drop_last() =~= Seq::<(Seq<u8>, Bencode)>::empty());
        assert(entries.drop_first() =~= Seq::<(Seq<u8>, Bencode)>::empty());
        assert(spec_encode_entries(entries.drop_last()) =~= Seq::<u8>::empty());
        assert(spec_encode_entries(entries) =~= spec_encode_bytes(entries[0].0) + spec_encode(entries[0].1)
            + spec_encode_entries(entries.drop_first()));
    } else {
        lemma_encode_entries_first(entries.drop_last());
        assert(entries.drop_last().drop_first() =~= entries.drop_first().drop_last());
        assert(entries.drop_last()[0] == entries[0]);
        assert(entries.drop_first().last() == entries.last());
        assert(spec_encode_entries(entries) =~= spec_encode_bytes(entries[0].0) + spec_encode(entries[0].1)
            + spec_encode_entries(entries.drop_first()));
    }
}

/// No item of a list is nested deeper than the list says.
pub proof fn lemma_list_depth(items: Seq<Bencode>, j: int)
    requires
        0 <= j < items.len(),
    ensures
        items[j].depth() <= list_depth(items),
    decreases items.len(),
{
    if j < items.len() - 1 {
        lemma_list_depth(items.drop_last(), j);
    }
}

/// No value of a dictionary is nested deeper than the dictionary says.
pub proof fn lemma_entries_depth(entries: Seq<(Seq<u8>, Bencode)>, j: int)
    requires
        0 <= j < entries.len(),
    ensures
        entries[j].1.depth() <= entries_depth(entries),
    decreases entries.len(),
{
    if j < entries.len() - 1 {
        lemma_entries_depth(entries.drop_last(), j);
    }
}

/// A list whose items are nested at most `bound` deep says no more.
pub proof fn lemma_list_depth_bound(items: Seq<Bencode>, bound: nat)
    requires
        forall|j: int| 0 <= j < items.len() ==> (#[trigger] items[j]).depth() <= bound,
    ensures
        list_depth(items) <= bound,
    decreases items.len(),
{
    if items.len() > 0 {
        assert forall|j: int| 0 <= j < items.drop_last().len() implies (#[trigger] items.drop_last()[j]).depth()
            <= bound by {
            assert(items.drop_last()[j] == items[j]);
        }
        lemma_list_depth_bound(items.drop_last(), bound);
        assert(items.last() == items[items.len() - 1]);
    }
}

/// A dictionary whose values are nested at most `bound` deep says no more.
pub proof fn lemma_entries_depth_bound(entries: Seq<(Seq<u8>, Bencode)>, bound: nat)
    requires
        forall|j: int| 0 <= j < entries.len() ==> (#[trigger] entries[j]).1.depth() <= bound,
    ensures
        entries_depth(entries) <= bound,
    decreases entries.len(),
{
    if entries.len() > 0 {
        assert forall|j: int| 0 <= j < entries.drop_last().len() implies (#[trigger] entries.drop_last()[j]).1.depth()
            <= bound by {
            assert(entries.drop_last()[j] == entries[j]);
        }
        lemma_entries_depth_bound(entries.drop_last(), bound);
        assert(entries.last() == entries[entries.len() - 1]);
    }
}

/// A well-formed value whose encoding stands at `pos` is read back from
/// there, if it is not nested deeper than `depth`.
pub proof fn lemma_decode_encoded(v: Bencode, s: Seq<u8>, pos: int, depth: nat)
    requires
        v.wf(),
        v.depth() <= depth,
        holds_at(s, pos, spec_encode(v)),
    ensures
        spec_decode_at(s, pos, depth) == Ok::<(Bencode, int), CodecError>((v, pos + spec_encode(v).len())),
    decreases v, 0int,
{
    lemma_encode_starts(v);
    lemma_holds_at_index(s, pos, spec_encode(v), 0);
    match v {
        Bencode::Integer(i) => {
            let text = spec_int_text(i);
            assert(seq![INTEGER_TAG] + (text + seq![END_TAG]) =~= spec_encode(v));
            lemma_holds_at_split(s, pos, seq![INTEGER_TAG], text + seq![END_TAG]);
            lemma_decode_int_encoded(i, s, pos + 1);
        },
        Bencode::Bytes(b) => {
            lemma_decode_bytes_encoded(b, s, pos);
        },
        Bencode::List(items) => {
            let body = spec_encode_list(items) + seq![END_TAG];
            assert(seq![LIST_TAG] + body =~= spec_encode(v));
            lemma_holds_at_split(s, pos, seq![LIST_TAG], body);
            assert(items.skip(0) =~= items);
            assert(items.take(0) =~= Seq::<Bencode>::empty());
            assert forall|j: int| 0 <= j < items.len() implies (#[trigger] items[j]).depth() <= depth - 1 by {
                lemma_list_depth(items, j);
            }
            lemma_decode_list_encoded(items, 0, s, pos + 1, (depth - 1) as nat);
        },
        Bencode::Dict(entries) => {
            let body = spec_encode_entries(entries) + seq![END_TAG];
            assert(seq![DICTIONARY_TAG] + body =~= spec_encode(v));
            lemma_holds_at_split(s, pos, seq![DICTIONARY_TAG], body);
            assert(entries.skip(0) =~= entries);
            assert(entries.take(0) =~= Seq::<(Seq<u8>, Bencode)>::empty());
            assert forall|j: int| 0 <= j < entries.len() implies (#[trigger] entries[j]).1.depth() <= depth - 1 by {
                lemma_entries_depth(entries, j);
            }
            lemma_decode_dict_encoded(entries, 0, s, pos + 1, (depth - 1) as nat);
        },
    }
}

/// The items of a list from the `k`-th on, encoded and closed by `e`, are
/// read back behind the first `k`.
proof fn lemma_decode_list_encoded(items: Seq<Bencode>, k: int, s: Seq<u8>, pos: int, depth: nat)
    requires
        0 <= k <= items.len(),
        forall|j: int| 0 <= j < items.len() ==> (#[trigger] items[j]).wf(),
        forall|j: int| 0 <= j < items.len() ==> (#[trigger] items[j]).depth() <= depth,
        holds_at(s, pos, spec_encode_list(items.skip(k)) + seq![END_TAG]),
    ensures
        spec_decode_list_at(s, pos, depth, items.take(k)) == Ok::<(Seq<Bencode>, int), CodecError>(
            (items, pos + spec_encode_list(items.skip(k)).len() + 1),
        ),
    decreases items, items.len() - k,
{
    let rest = items.skip(k);
    let body = spec_encode_list(rest);
    lemma_holds_at_split(s, pos, body, seq![END_TAG]);
    if k == items.len() {
        assert(rest =~= Seq::<Bencode>::empty());
        lemma_holds_at_index(s, pos, body + seq![END_TAG], 0);
        assert(items.take(k) =~= items);
    } else {
        let head = items[k];
        lemma_encode_list_first(rest);
        assert(rest[0] == head);
        assert(rest.drop_first() =~= items.skip(k + 1));
        let tail = spec_encode_list(items.skip(k + 1));
        assert(body + seq![END_TAG] =~= spec_encode(head) + (tail + seq![END_TAG]));
        lemma_holds_at_split(s, pos, spec_encode(head), tail + seq![END_TAG]);
        lemma_encode_starts(head);
        lemma_holds_at_index(s, pos, spec_encode(head), 0);
        lemma_decode_encoded(head, s, pos, depth);
        let next = pos + spec_encode(head).len();
        assert(items.take(k).push(head) =~= items.take(k + 1));
        lemma_decode_list_encoded(items, k + 1, s, next, depth);
    }
}

/// The entries of a dictionary from the `k`-th on, encoded and closed by
/// `e`, are read back behind the first `k`.
proof fn lemma_decode_dict_encoded(entries: Seq<(Seq<u8>, Bencode)>, k: int, s: Seq<u8>, pos: int, depth: nat)
    requires
        0 <= k <= entries.len(),
        keys_sorted(entries),
        forall|j: int| 0 <= j < entries.len() ==> (#[trigger] entries[j]).1.wf(),
        forall|j: int| 0 <= j < entries.len() ==> (#[trigger] entries[j]).1.depth() <= depth,
        holds_at(s, pos, spec_encode_entries(entries.skip(k)) + seq![END_TAG]),
    ensures
        spec_decode_dict_at(s, pos, depth, entries.take(k)) == Ok::<(Seq<(Seq<u8>, Bencode)>, int), CodecError>(
            (entries, pos + spec_encode_entries(entries.skip(k)).len() + 1),
        ),
    decreases entries, entries.len() - k,
{
    let rest = entries.skip(k);
    let body = spec_encode_entries(rest);
    lemma_holds_at_split(s, pos, body, seq![END_TAG]);
    if k == entries.len() {
        assert(rest =~= Seq::<(Seq<u8>, Bencode)>::empty());
        lemma_holds_at_index(s, pos, body + seq![END_TAG], 0);
        assert(entries.take(k) =~= entries);
    } else {
        let key = entries[k].0;
        let value = entries[k].1;
        lemma_encode_entries_first(rest);
        assert(rest[0] == entries[k]);
        assert(rest.drop_first() =~= entries.skip(k + 1));
        let tail = spec_encode_entries(entries.skip(k + 1));
        let key_text = spec_encode_bytes(key);
        assert(body + seq![END_TAG] =~= key_text + (spec_encode(value) + (tail + seq![END_TAG])));
        lemma_holds_at_split(s, pos, key_text, spec_encode(value) + (tail + seq![END_TAG]));
        lemma_decode_bytes_encoded(key, s, pos);
        let at = pos + key_text.len();
        lemma_digits(key.len());
        lemma_holds_at_split(s, at, spec_encode(value), tail + seq![END_TAG]);
        lemma_encode_starts(value);
        lemma_decode_encoded(value, s, at, depth);
        let next = at + spec_encode(value).len();
        assert forall|j: int| 0 <= j < entries.take(k).len() implies bytes_lt(
            #[trigger] entries.take(k)[j].0,
            key,
        ) by {
            assert(entries.take(k)[j] == entries[j]);
        }
        lemma_insert_greatest(entries.take(k), key, value);
        assert(entries.take(k).push((key, value)) =~= entries.take(k + 1));
        lemma_decode_dict_encoded(entries, k + 1, s, next, depth);
    }
}

/// Decoding what was encoded gives the value back, and takes all of the
/// encoding, for every well-formed value that is nested no deeper than
/// `MAX_DEPTH`. What stands behind the encoding does not matter.
pub proof fn lemma_roundtrip(v: Bencode, trailing: Seq<u8>)
    requires
        v.wf(),
        v.depth() <= MAX_DEPTH,
    ensures
        spec_decode(spec_encode(v) + trailing) == Ok::<(Bencode, int), CodecError>((v, spec_encode(v).len() as int)),
        spec_decode(spec_encode(v)) == Ok::<(Bencode, int), CodecError>((v, spec_encode(v).len() as int)),
{
    let s = spec_encode(v) + trailing;
    assert(s.subrange(0, spec_encode(v).len() as int) =~= spec_encode(v));
    lemma_decode_encoded(v, s, 0, MAX_DEPTH as nat);
    let t = spec_encode(v);
    assert(t.subrange(0, t.len() as int) =~= t);
    lemma_decode_encoded(v, t, 0, MAX_DEPTH as nat);
}

/// The number that a run of digits writes is not negative.
proof fn lemma_digits_value_nonnegative(d: Seq<u8>)
    requires
        forall|i: int| 0 <= i < d.len() ==> is_digit(#[trigger] d[i]),
    ensures
        digits_value(d) >= 0,
    decreases d.len(),
{
    if d.len() > 0 {
        lemma_digits_value_nonnegative(d.drop_last());
    }
}

/// A byte string that was read ends behind where it starts, inside `s`.
pub proof fn lemma_decode_bytes_advances(s: Seq<u8>, pos: int)
    ensures
        spec_decode_bytes_at(s, pos) matches Ok((b, next)) ==> pos < next <= s.len(),
{
    if 0 <= pos <= s.len() {
        lemma_digits_end(s, pos);
        let end = digits_end(s, pos);
        lemma_digits_value_nonnegative(s.subrange(pos, end));
    }
}

/// A value that was read ends behind where it starts, inside `s`: the tests
/// on `next` in the definitions of the decoder never fail.
pub proof fn lemma_decode_advances(s: Seq<u8>, pos: int, depth: nat)
    ensures
        spec_decode_at(s, pos, depth) matches Ok((v, next)) ==> pos < next <= s.len(),
    decreases depth, s.len() - pos, 0nat,
{
    if 0 <= pos < s.len() {
        if s[pos] == INTEGER_TAG {
            let negative = pos + 1 < s.len() && s[pos + 1] == MINUS_SIGN;
            let start = if negative { pos + 2 } else { pos + 1 };
            lemma_digits_end(s, start);
        } else if s[pos] == LIST_TAG {
            if depth > 0 {
                lemma_decode_list_advances(s, pos + 1, (depth - 1) as nat, Seq::empty());
            }
        } else if s[pos] == DICTIONARY_TAG {
            if depth > 0 {
                lemma_decode_dict_advances(s, pos + 1, (depth - 1) as nat, Seq::empty());
            }
        } else {
            lemma_decode_bytes_advances(s, pos);
        }
    }
}

proof fn lemma_decode_list_advances(s: Seq<u8>, pos: int, depth: nat, acc: Seq<Bencode>)
    ensures
        spec_decode_list_at(s, pos, depth, acc) matches Ok((items, next)) ==> pos < next <= s.len(),
    decreases depth, s.len() - pos, 1nat,
{
    if 0 <= pos < s.len() && s[pos] != END_TAG {
        lemma_decode_advances(s, pos, depth);
        match spec_decode_at(s, pos, depth) {
            Ok((v, next)) => {
                lemma_decode_list_advances(s, next, depth, acc.push(v));
            },
            Err(_) => {},
        }
    }
}

proof fn lemma_decode_dict_advances(s: Seq<u8>, pos: int, depth: nat, acc: Seq<(Seq<u8>, Bencode)>)
    ensures
        spec_decode_dict_at(s, pos, depth, acc) matches Ok((entries, next)) ==> pos < next <= s.len(),
    decreases depth, s.len() - pos, 1nat,
{
    if 0 <= pos < s.len() && s[pos] != END_TAG {
        lemma_decode_bytes_advances(s, pos);
        match spec_decode_bytes_at(s, pos) {
            Ok((key, at)) => {
                lemma_decode_advances(s, at, depth);
                match spec_decode_at(s, at, depth) {
                    Ok((v, next)) => {
                        lemma_decode_dict_advances(s, next, depth, dict_insert(acc, key, v));
                    },
                    Err(_) => {},
                }
            },
            Err(_) => {},
        }
    }
}

/// In a dictionary with increasing keys, the entry that holds a key is the
/// one that a lookup finds, and a lookup finds nothing else.
pub proof fn lemma_lookup_sorted(entries: Seq<(Seq<u8>, Bencode)>, key: Seq<u8>)
    requires
        keys_sorted(entries),
    ensures
        forall|i: int| 0 <= i < entries.len() && (#[trigger] entries[i]).0 == key ==> dict_lookup(entries, key) == Some(entries[i].1),
        dict_lookup(entries, key) is Some ==> exists|i: int| 0 <= i < entries.len() && #[trigger] entries[i] == (key, dict_lookup(entries, key)->0),
{
    lemma_index_of_key(entries, key, 0);
    let found = index_of_key(entries, key, 0);
    assert forall|i: int| 0 <= i < entries.len() && (#[trigger] entries[i]).0 == key implies dict_lookup(
        entries,
        key,
    ) == Some(entries[i].1) by {
        if found < i {
            assert(bytes_lt(entries[found].0, entries[i].0));
            lemma_bytes_lt_irreflexive(key);
        }
    }
    if dict_lookup(entries, key) is Some {
        assert(entries[found] == (key, dict_lookup(entries, key)->0));
    }
}

/// A dictionary is a map: after `key` was bound to `value`, a lookup of
/// `key` finds `value`, and a lookup of any other key finds what it found
/// before.
pub proof fn lemma_lookup_insert(entries: Seq<(Seq<u8>, Bencode)>, key: Seq<u8>, value: Bencode, other: Seq<u8>)
    requires
        keys_sorted(entries),
    ensures
        dict_lookup(dict_insert(entries, key, value), other) == (if other == key {
            Some(value)
        } else {
            dict_lookup(entries, other)
        }),
{
    let out = dict_insert(entries, key, value);
    let p = lower_bound(entries, key, 0);
    lemma_lower_bound(entries, key, 0);
    lemma_insert_sorted(entries, key, value);
    lemma_insert_members(entries, key, value);
    lemma_lookup_sorted(out, other);
    lemma_lookup_sorted(entries, other);
    assert(out[p] == (key, value));
    if other != key {
        match dict_lookup(entries, other) {
            Some(w) => {
                let i = choose|i: int| 0 <= i < entries.len() && #[trigger] entries[i] == (other, w);
                if p < entries.len() && entries[p].0 == key {
                    assert(out[i] == entries[i]);
                } else if i < p {
                    assert(out[i] == entries[i]);
                } else {
                    assert(out[i + 1] == entries[i]);
                }
            },
            None => {
                if dict_lookup(out, other) is Some {
                    let i = choose|i: int| 0 <= i < out.len() && #[trigger] out[i] == (other, dict_lookup(out, other)->0);
                    assert(entries.contains(out[i]));
                    let j = choose|j: int| 0 <= j < entries.len() && entries[j] == out[i];
                    assert(entries[j].0 == other);
                }
            },
        }
    }
}

/// The last entry of a dictionary with increasing keys has the greatest key,
/// so a dictionary with the same bindings ends with the same entry.
proof fn lemma_same_last(a: Seq<(Seq<u8>, Bencode)>, b: Seq<(Seq<u8>, Bencode)>)
    requires
        keys_sorted(a),
        keys_sorted(b),
        a.len() > 0,
        forall|key: Seq<u8>| dict_lookup(a, key) == dict_lookup(b, key),
    ensures
        b.len() > 0,
        a.last() == b.last(),
{
    let ka = a.last().0;
    lemma_lookup_sorted(a, ka);
    lemma_lookup_sorted(b, ka);
    assert(dict_lookup(a, ka) == Some(a.last().1));
    assert(dict_lookup(b, ka) == Some(a.last().1));
    let j = choose|j: int| 0 <= j < b.len() && #[trigger] b[j] == (ka, a.last().1);
    if j < b.len() - 1 {
        let kb = b.last().0;
        assert(bytes_lt(b[j].0, b[b.len() - 1].0));
        lemma_lookup_sorted(b, kb);
        lemma_lookup_sorted(a, kb);
        assert(dict_lookup(b, kb) == Some(b.last().1));
        let i = choose|i: int| 0 <= i < a.len() && #[trigger] a[i] == (kb, b.last().1);
        if i < a.len() - 1 {
            assert(bytes_lt(a[i].0, a[a.len() - 1].0));
            lemma_bytes_lt_asymmetric(ka, kb);
        } else {
            lemma_bytes_lt_irreflexive(ka);
        }
    }
}

/// Without its last entry, a dictionary with increasing keys finds what it
/// found before under every key but the last.
proof fn lemma_lookup_drop_last(a: Seq<(Seq<u8>, Bencode)>, key: Seq<u8>)
    requires
        keys_sorted(a),
        a.len() > 0,
    ensures
        keys_sorted(a.drop_last()),
        dict_lookup(a.drop_last(), key) == (if key == a.last().0 {
            None
        } else {
            dict_lookup(a, key)
        }),
{
    let front = a.drop_last();
    assert forall|i: int, j: int| 0 <= i < j < front.len() implies bytes_lt(
        #[trigger] front[i].0,
        #[trigger] front[j].0,
    ) by {
        assert(front[i] == a[i] && front[j] == a[j]);
    }
    lemma_lookup_sorted(a, key);
    lemma_lookup_sorted(front, key);
    if dict_lookup(front, key) is Some {
        let i = choose|i: int| 0 <= i < front.len() && #[trigger] front[i] == (key, dict_lookup(front, key)->0);
        assert(a[i] == front[i]);
        if key == a.last().0 {
            assert(bytes_lt(a[i].0, a[a.len() - 1].0));
            lemma_bytes_lt_irreflexive(key);
        }
    } else if key != a.last().0 && dict_lookup(a, key) is Some {
        let i = choose|i: int| 0 <= i < a.len() && #[trigger] a[i] == (key, dict_lookup(a, key)->0);
        assert(front[i] == a[i]);
    }
}

/// The entries of a dictionary are determined by what it binds: two
/// dictionaries with increasing keys that find the same value under every
/// key are the same sequence of entries, and so have the same encoding.
pub proof fn lemma_dict_canonical(a: Seq<(Seq<u8>, Bencode)>, b: Seq<(Seq<u8>, Bencode)>)
    requires
        keys_sorted(a),
        keys_sorted(b),
        forall|key: Seq<u8>| dict_lookup(a, key) == dict_lookup(b, key),
    ensures
        a == b,
        spec_encode(Bencode::Dict(a)) == spec_encode(Bencode::Dict(b)),
    decreases a.len(),
{
    if a.len() == 0 {
        if b.len() > 0 {
            lemma_lookup_sorted(b, b[0].0);
            assert(dict_lookup(b, b[0].0) is Some);
            assert(dict_lookup(a, b[0].0) is None);
        }
        assert(a =~= b);
    } else {
        lemma_same_last(a, b);
        assert forall|key: Seq<u8>| dict_lookup(a.drop_last(), key) == dict_lookup(b.drop_last(), key) by {
            lemma_lookup_drop_last(a, key);
            lemma_lookup_drop_last(b, key);
        }
        lemma_lookup_drop_last(a, a.last().0);
        lemma_lookup_drop_last(b, b.last().0);
        lemma_dict_canonical(a.drop_last(), b.drop_last());
        assert(a =~= a.drop_last().push(a.last()));
        assert(b =~= b.drop_last().push(b.last()));
    }
}

/// The order in which two keys are bound does not show in the dictionary,
/// nor in its encoding: the entries stand, and are written, in key order.
pub proof fn lemma_insert_order_irrelevant(
    entries: Seq<(Seq<u8>, Bencode)>,
    key1: Seq<u8>,
    value1: Bencode,
    key2: Seq<u8>,
    value2: Bencode,
)
    requires
        keys_sorted(entries),
        key1 != key2,
    ensures
        dict_insert(dict_insert(entries, key1, value1), key2, value2) == dict_insert(
            dict_insert(entries, key2, value2),
            key1,
            value1,
        ),
        keys_sorted(dict_insert(dict_insert(entries, key1, value1), key2, value2)),
{
    let first = dict_insert(entries, key1, value1);
    let second = dict_insert(entries, key2, value2);
    lemma_insert_sorted(entries, key1, value1);
    lemma_insert_sorted(entries, key2, value2);
    lemma_insert_sorted(first, key2, value2);
    lemma_insert_sorted(second, key1, value1);
    assert forall|key: Seq<u8>| dict_lookup(dict_insert(first, key2, value2), key) == dict_lookup(
        dict_insert(second, key1, value1),
        key,
    ) by {
        lemma_lookup_insert(entries, key1, value1, key);
        lemma_lookup_insert(entries, key2, value2, key);
        lemma_lookup_insert(first, key2, value2, key);
        lemma_lookup_insert(second, key1, value1, key);
    }
    lemma_dict_canonical(dict_insert(first, key2, value2), dict_insert(second, key1, value1));
}

} // verus!
