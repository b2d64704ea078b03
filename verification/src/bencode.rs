//! The bencode value tree: integers, byte strings, lists and dictionaries
//! whose keys are kept in byte-lexicographic order.

use vstd::prelude::*;

pub mod codec;
pub mod laws;

use crate::byte_string::{bytes_equal, bytes_less, bytes_lt, lemma_bytes_lt_connected, lemma_bytes_lt_transitive};

verus! {

/// A bencoded value as it is held in memory.
#[derive(Debug, PartialEq, Eq)]
pub enum BencodeValue {
    Integer(i64),
    String(Vec<u8>),
    List(Vec<BencodeValue>),
    Dictionary(Dict),
}

/// A dictionary from byte-string keys to values. The entries are kept in
/// strictly increasing key order, so a key occurs at most once and two
/// dictionaries with the same content are the same sequence of entries.
#[derive(Debug, PartialEq, Eq)]
pub struct Dict {
    entries: Vec<(Vec<u8>, BencodeValue)>,
}

/// The mathematical value that a `BencodeValue` stands for.
pub ghost enum Bencode {
    Integer(int),
    Bytes(Seq<u8>),
    List(Seq<Bencode>),
    Dict(Seq<(Seq<u8>, Bencode)>),
}

/// The keys of `entries` are strictly increasing.
pub open spec fn keys_sorted(entries: Seq<(Seq<u8>, Bencode)>) -> bool {
    forall|i: int, j: int| 0 <= i < j < entries.len() ==> bytes_lt(#[trigger] entries[i].0, #[trigger] entries[j].0)
}

/// The first index at or after `from` whose key is `key`, or the length of
/// `entries` when there is none.
pub open spec fn index_of_key(entries: Seq<(Seq<u8>, Bencode)>, key: Seq<u8>, from: int) -> int
    decreases entries.len() - from,
{
    if from < 0 || from >= entries.len() {
        entries.len() as int
    } else if entries[from].0 == key {
        from
    } else {
        index_of_key(entries, key, from + 1)
    }
}

/// The value stored under `key`, if any.
pub open spec fn dict_lookup(entries: Seq<(Seq<u8>, Bencode)>, key: Seq<u8>) -> Option<Bencode> {
    let i = index_of_key(entries, key, 0);
    if i < entries.len() {
        Some(entries[i].1)
    } else {
        None
    }
}

/// The first index at or after `from` whose key does not sort before `key`,
/// or the length of `entries` when every key from `from` on sorts before it.
pub open spec fn lower_bound(entries: Seq<(Seq<u8>, Bencode)>, key: Seq<u8>, from: int) -> int
    decreases entries.len() - from,
{
    if from < 0 || from >= entries.len() {
        entries.len() as int
    } else if !bytes_lt(entries[from].0, key) {
        from
    } else {
        lower_bound(entries, key, from + 1)
    }
}

/// `entries` with `key` bound to `value`: an entry with that key is replaced,
/// otherwise the new entry is put where the key order wants it.
pub open spec fn dict_insert(entries: Seq<(Seq<u8>, Bencode)>, key: Seq<u8>, value: Bencode) -> Seq<(Seq<u8>, Bencode)> {
    let p = lower_bound(entries, key, 0);
    if p < entries.len() && entries[p].0 == key {
        entries.update(p, (key, value))
    } else {
        entries.insert(p, (key, value))
    }
}

impl Bencode {
    /// Integers fit in 64 bits and every dictionary, at every level, has its
    /// keys in strictly increasing order.
    pub open spec fn wf(self) -> bool
        decreases self,
    {
        match self {
            Bencode::Integer(i) => i64::MIN <= i <= i64::MAX,
            Bencode::Bytes(_) => true,
            Bencode::List(items) => forall|i: int| 0 <= i < items.len() ==> (#[trigger] items[i]).wf(),
            Bencode::Dict(entries) => keys_sorted(entries) && forall|i: int|
                0 <= i < entries.len() ==> (#[trigger] entries[i]).1.wf(),
        }
    }

    /// How many containers are nested at the deepest point: 0 for an integer
    /// or a byte string.
    pub open spec fn depth(self) -> nat
        decreases self,
    {
        match self {
            Bencode::Integer(_) => 0,
            Bencode::Bytes(_) => 0,
            Bencode::List(items) => 1 + list_depth(items),
            Bencode::Dict(entries) => 1 + entries_depth(entries),
        }
    }
}

/// The greatest depth among `items`, 0 when there are none.
pub open spec fn list_depth(items: Seq<Bencode>) -> nat
    decreases items,
{
    if items.len() == 0 {
        0
    } else {
        let rest = list_depth(items.drop_last());
        let last = items.last().depth();
        if last > rest { last } else { rest }
    }
}

/// The greatest depth among the values of `entries`, 0 when there are none.
pub open spec fn entries_depth(entries: Seq<(Seq<u8>, Bencode)>) -> nat
    decreases entries,
{
    if entries.len() == 0 {
        0
    } else {
        let rest = entries_depth(entries.drop_last());
        let last = entries.last().1.depth();
        if last > rest { last } else { rest }
    }
}

/// The values that a vector of items stands for.
pub open spec fn list_view(items: Seq<BencodeValue>) -> Seq<Bencode> {
    Seq::new(items.len(), |i: int| items[i]@)
}

/// A list stands for the list of what its items stand for.
pub proof fn lemma_list_view(items: Vec<BencodeValue>)
    ensures
        BencodeValue::List(items)@ == Bencode::List(list_view(items@)),
{
    assert(BencodeValue::List(items)@->List_0 =~= list_view(items@));
}

impl View for BencodeValue {
    type V = Bencode;

    open spec fn view(&self) -> Bencode
        decreases self,
    {
        match self {
            BencodeValue::Integer(i) => Bencode::Integer(*i as int),
            BencodeValue::String(b) => Bencode::Bytes(b@),
            BencodeValue::List(items) => Bencode::List(
                Seq::new(items.len() as nat, |i: int| if 0 <= i < items.len() { items[i].view() } else { Bencode::Integer(0) }),
            ),
            BencodeValue::Dictionary(d) => Bencode::Dict(d.view()),
        }
    }
}

impl View for Dict {
    type V = Seq<(Seq<u8>, Bencode)>;

    closed spec fn view(&self) -> Seq<(Seq<u8>, Bencode)>
        decreases self,
    {
        Seq::new(
            self.entries.len() as nat,
            |i: int| if 0 <= i < self.entries.len() { (self.entries[i].0@, self.entries[i].1.view()) } else { (Seq::empty(), Bencode::Integer(0)) },
        )
    }
}

/// What `lower_bound` returns splits the entries from `from` on: the keys
/// before it sort before `key`, the key at it does not.
pub proof fn lemma_lower_bound(entries: Seq<(Seq<u8>, Bencode)>, key: Seq<u8>, from: int)
    requires
        0 <= from <= entries.len(),
    ensures
        from <= lower_bound(entries, key, from) <= entries.len(),
        forall|j: int| from <= j < lower_bound(entries, key, from) ==> bytes_lt(#[trigger] entries[j].0, key),
        lower_bound(entries, key, from) < entries.len() ==> !bytes_lt(
            entries[lower_bound(entries, key, from)].0,
            key,
        ),
    decreases entries.len() - from,
{
    if from < entries.len() && bytes_lt(entries[from].0, key) {
        lemma_lower_bound(entries, key, from + 1);
    }
}

/// What `index_of_key` returns is the first entry with that key.
pub proof fn lemma_index_of_key(entries: Seq<(Seq<u8>, Bencode)>, key: Seq<u8>, from: int)
    requires
        0 <= from <= entries.len(),
    ensures
        from <= index_of_key(entries, key, from) <= entries.len(),
        forall|j: int| from <= j < index_of_key(entries, key, from) ==> (#[trigger] entries[j]).0 != key,
        index_of_key(entries, key, from) < entries.len() ==> entries[index_of_key(entries, key, from)].0
            == key,
    decreases entries.len() - from,
{
    if from < entries.len() && entries[from].0 != key {
        lemma_index_of_key(entries, key, from + 1);
    }
}

/// Inserting into a dictionary with increasing keys gives one again.
pub proof fn lemma_insert_sorted(entries: Seq<(Seq<u8>, Bencode)>, key: Seq<u8>, value: Bencode)
    requires
        keys_sorted(entries),
    ensures
        keys_sorted(dict_insert(entries, key, value)),
{
    let p = lower_bound(entries, key, 0);
    let out = dict_insert(entries, key, value);
    lemma_lower_bound(entries, key, 0);
    assert forall|i: int, j: int| 0 <= i < j < out.len() implies bytes_lt(
        #[trigger] out[i].0,
        #[trigger] out[j].0,
    ) by {
        if p < entries.len() && entries[p].0 == key {
            assert(out[i].0 == entries[i].0);
            assert(out[j].0 == entries[j].0);
        } else {
            // the new entry sits at p, what was at p and after moved up by one
            if j == p {
                assert(out[i].0 == entries[i].0);
            } else if i == p {
                assert(out[j].0 == entries[j - 1].0);
                if !bytes_lt(key, entries[p].0) {
                    lemma_bytes_lt_connected(key, entries[p].0);
                }
                if j - 1 > p {
                    assert(bytes_lt(entries[p].0, entries[j - 1].0));
                    lemma_bytes_lt_transitive(key, entries[p].0, entries[j - 1].0);
                }
            } else {
                let oi = if i < p { i } else { i - 1 };
                let oj = if j < p { j } else { j - 1 };
                assert(out[i].0 == entries[oi].0);
                assert(out[j].0 == entries[oj].0);
            }
        }
    }
}

/// Every entry of the dictionary after an insertion is the new entry or was
/// there before.
pub proof fn lemma_insert_members(entries: Seq<(Seq<u8>, Bencode)>, key: Seq<u8>, value: Bencode)
    ensures
        forall|i: int|
            0 <= i < dict_insert(entries, key, value).len() ==> {
                ||| (#[trigger] dict_insert(entries, key, value)[i]) == (key, value)
                ||| entries.contains(dict_insert(entries, key, value)[i])
            },
{
    lemma_lower_bound(entries, key, 0);
    let p = lower_bound(entries, key, 0);
    let out = dict_insert(entries, key, value);
    assert forall|i: int| 0 <= i < out.len() implies {
        ||| (#[trigger] out[i]) == (key, value)
        ||| entries.contains(out[i])
    } by {
        if p < entries.len() && entries[p].0 == key {
            if i != p {
                assert(out[i] == entries[i]);
            }
        } else {
            if i < p {
                assert(out[i] == entries[i]);
            } else if i > p {
                assert(out[i] == entries[i - 1]);
            }
        }
    }
}

/// A key that sorts after every key present is appended at the end.
pub proof fn lemma_insert_greatest(entries: Seq<(Seq<u8>, Bencode)>, key: Seq<u8>, value: Bencode)
    requires
        forall|i: int| 0 <= i < entries.len() ==> bytes_lt(#[trigger] entries[i].0, key),
    ensures
        dict_insert(entries, key, value) == entries.push((key, value)),
{
    lemma_lower_bound(entries, key, 0);
    let p = lower_bound(entries, key, 0);
    if p < entries.len() {
        assert(bytes_lt(entries[p].0, key));
    }
    assert(entries.insert(p, (key, value)) =~= entries.push((key, value)));
}

impl Dict {
    /// The keys are in strictly increasing order.
    pub open spec fn wf(&self) -> bool {
        keys_sorted(self@)
    }

    /// The empty dictionary.
    pub fn new() -> (d: Dict)
        ensures
            d@ == Seq::<(Seq<u8>, Bencode)>::empty(),
            d.wf(),
    {
        let d = Dict { entries: Vec::new() };
        assert(d@ =~= Seq::<(Seq<u8>, Bencode)>::empty());
        d
    }

    /// The number of entries.
    pub fn len(&self) -> (n: usize)
        ensures
            n == self@.len(),
    {
        self.entries.len()
    }

    /// The key of the entry at `index`, counted in key order.
    pub fn key_at(&self, index: usize) -> (key: &Vec<u8>)
        requires
            index < self@.len(),
        ensures
            key@ == self@[index as int].0,
    {
        &self.entries[index].0
    }

    /// The value of the entry at `index`, counted in key order.
    pub fn value_at(&self, index: usize) -> (value: &BencodeValue)
        requires
            index < self@.len(),
        ensures
            value@ == self@[index as int].1,
    {
        &self.entries[index].1
    }

    /// The value stored under `key`, if there is one.
    pub fn get(&self, key: &[u8]) -> (found: Option<&BencodeValue>)
        ensures
            match found {
                Some(value) => dict_lookup(self@, key@) == Some(value@),
                None => dict_lookup(self@, key@) is None,
            },
    {
        let mut i: usize = 0;
        while i < self.entries.len()
            invariant
                i <= self.entries.len(),
                index_of_key(self@, key@, 0) == index_of_key(self@, key@, i as int),
            decreases self.entries.len() - i,
        {
            if bytes_equal(self.entries[i].0.as_slice(), key) {
                return Some(&self.entries[i].1);
            }
            i += 1;
        }
        None
    }

    /// Binds `key` to `value`, replacing what was stored under that key.
    pub fn insert(&mut self, key: Vec<u8>, value: BencodeValue)
        requires
            old(self).wf(),
        ensures
            final(self).wf(),
            final(self)@ == dict_insert(old(self)@, key@, value@),
    {
        let mut p: usize = 0;
        while p < self.entries.len() && bytes_less(self.entries[p].0.as_slice(), key.as_slice())
            invariant
                p <= self.entries.len(),
                lower_bound(self@, key@, 0) == lower_bound(self@, key@, p as int),
            decreases self.entries.len() - p,
        {
            p += 1;
        }
        proof {
            lemma_insert_sorted(self@, key@, value@);
        }
        let ghost before = self@;
        if p < self.entries.len() && bytes_equal(self.entries[p].0.as_slice(), key.as_slice()) {
            self.entries.set(p, (key, value));
            assert(self@ =~= before.update(p as int, (key@, value@)));
        } else {
            self.entries.insert(p, (key, value));
            assert(self@ =~= before.insert(p as int, (key@, value@)));
        }
    }
}

} // verus!
