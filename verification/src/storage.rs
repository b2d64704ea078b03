//! What storage has to get right apart from the reading and writing itself:
//! which pieces a checkpoint log names, where a piece lies in the file, and
//! in which order the steps of a write are taken.

use vstd::prelude::*;
use std::collections::HashSet;
use crate::decimal::{
    digits_end, digits_value, is_digit, lemma_digits, lemma_digits_end_of_run, push_digits, scan_digits, spec_digits,
    PLUS_SIGN,
};

verus! {

broadcast use vstd::std_specs::hash::group_hash_axioms;

/// The comma that ends an entry of the log.
pub const COMMA: u8 = 0x2c;

/// The line feed, which ends an entry as a comma does.
pub const LINE_FEED: u8 = 0x0a;

/// Whether `b` ends an entry of the log: a comma or a line feed.
pub open spec fn is_separator(b: u8) -> bool {
    b == COMMA || b == LINE_FEED
}

/// Whether `b` is ASCII white space.
pub open spec fn is_space(b: u8) -> bool {
    b == 0x20 || (0x09 <= b <= 0x0d)
}

/// How many bytes from `from` on stand before the next separator.
pub open spec fn entry_len(s: Seq<u8>, from: int) -> nat
    decreases s.len() - from,
{
    if from < 0 || from >= s.len() || is_separator(s[from]) {
        0
    } else {
        1 + entry_len(s, from + 1)
    }
}

/// The first index from `from` on, and before `end`, that holds no white
/// space; `end` if there is none.
pub open spec fn skip_spaces(s: Seq<u8>, from: int, end: int) -> int
    decreases end - from,
{
    if 0 <= from < end <= s.len() && is_space(s[from]) {
        skip_spaces(s, from + 1, end)
    } else {
        from
    }
}

/// The index behind the last byte before `end`, and not before `from`, that
/// is no white space; `from` if there is none.
pub open spec fn drop_spaces(s: Seq<u8>, from: int, end: int) -> int
    decreases end - from,
{
    if 0 <= from < end <= s.len() && is_space(s[end - 1]) {
        drop_spaces(s, from, end - 1)
    } else {
        end
    }
}

/// The piece that the entry between `from` and `end` names: the entry
/// without the white space around it has to be a decimal number, with or
/// without a plus sign before it, that fits the machine's word. Any other
/// entry names no piece.
pub open spec fn spec_entry(s: Seq<u8>, from: int, end: int) -> Option<usize> {
    let first = skip_spaces(s, from, end);
    let last = drop_spaces(s, first, end);
    let start = if first < last && s[first] == PLUS_SIGN {
        first + 1
    } else {
        first
    };
    if start < last && digits_end(s, start) == last && digits_value(s.subrange(start, last)) <= usize::MAX {
        Some(digits_value(s.subrange(start, last)) as usize)
    } else {
        None
    }
}

/// The pieces that the entries of the log from `from` on name.
pub open spec fn spec_checkpoint_from(s: Seq<u8>, from: int) -> Set<usize>
    decreases (if from <= s.len() { s.len() + 1 - from } else { 0 }),
{
    if from < 0 || from >= s.len() {
        Set::empty()
    } else {
        let end = from + entry_len(s, from);
        let rest = spec_checkpoint_from(s, end + 1);
        match spec_entry(s, from, end) {
            Some(piece) => rest.insert(piece),
            None => rest,
        }
    }
}

/// The pieces that a checkpoint log names as complete. Entries are
/// separated by commas or line feeds; an entry that is no number is passed
/// over. A log that is not there is read as an empty one.
pub open spec fn spec_checkpoint(content: Seq<u8>) -> Set<usize> {
    spec_checkpoint_from(content, 0)
}

/// The entry that records piece `piece_id`: its number and a comma.
pub open spec fn spec_checkpoint_entry(piece_id: usize) -> Seq<u8> {
    spec_digits(piece_id as nat).push(COMMA)
}

/// The entries that record `pieces`, in their order.
pub open spec fn spec_checkpoint_entries(pieces: Seq<usize>) -> Seq<u8>
    decreases pieces.len(),
{
    if pieces.len() == 0 {
        Seq::empty()
    } else {
        spec_checkpoint_entries(pieces.drop_last()) + spec_checkpoint_entry(pieces.last())
    }
}

/// Two logs that hold the same bytes from `from` up to and with a separator
/// at `stop` have the same entry at `from`.
proof fn lemma_entry_agrees(a: Seq<u8>, b: Seq<u8>, from: int, stop: int)
    requires
        0 <= from <= stop < a.len(),
        stop < b.len(),
        forall|i: int| from <= i <= stop ==> a[i] == b[i],
        is_separator(a[stop]),
    ensures
        entry_len(a, from) == entry_len(b, from),
        from + entry_len(a, from) <= stop,
        spec_entry(a, from, from + entry_len(a, from)) == spec_entry(b, from, from + entry_len(b, from)),
    decreases stop - from,
{
    lemma_entry_len_agrees(a, b, from, stop);
    let end = from + entry_len(a, from);
    lemma_skip_spaces_agrees(a, b, from, end);
    let first = skip_spaces(a, from, end);
    lemma_drop_spaces_agrees(a, b, first, end);
    let last = drop_spaces(a, first, end);
    let start = if first < last && a[first] == PLUS_SIGN {
        first + 1
    } else {
        first
    };
    if start < last {
        lemma_digits_end_agrees(a, b, start, end);
        assert(a.subrange(start, last) =~= b.subrange(start, last));
    }
}

proof fn lemma_entry_len_agrees(a: Seq<u8>, b: Seq<u8>, from: int, stop: int)
    requires
        0 <= from <= stop < a.len(),
        stop < b.len(),
        forall|i: int| from <= i <= stop ==> a[i] == b[i],
        is_separator(a[stop]),
    ensures
        entry_len(a, from) == entry_len(b, from),
        from + entry_len(a, from) <= stop,
        is_separator(a[from + entry_len(a, from)]),
    decreases stop - from,
{
    if !is_separator(a[from]) {
        lemma_entry_len_agrees(a, b, from + 1, stop);
    }
}

proof fn lemma_skip_spaces_agrees(a: Seq<u8>, b: Seq<u8>, from: int, end: int)
    requires
        0 <= from <= end,
        end <= a.len(),
        end <= b.len(),
        forall|i: int| from <= i < end ==> a[i] == b[i],
    ensures
        skip_spaces(a, from, end) == skip_spaces(b, from, end),
        from <= skip_spaces(a, from, end) <= end,
    decreases end - from,
{
    if from < end && is_space(a[from]) {
        lemma_skip_spaces_agrees(a, b, from + 1, end);
    }
}

proof fn lemma_drop_spaces_agrees(a: Seq<u8>, b: Seq<u8>, from: int, end: int)
    requires
        0 <= from <= end,
        end <= a.len(),
        end <= b.len(),
        forall|i: int| from <= i < end ==> a[i] == b[i],
    ensures
        drop_spaces(a, from, end) == drop_spaces(b, from, end),
        from <= drop_spaces(a, from, end) <= end,
    decreases end - from,
{
    if from < end && is_space(a[end - 1]) {
        lemma_drop_spaces_agrees(a, b, from, end - 1);
    }
}

/// Two sequences that hold the same bytes from `from` up to and with a byte
/// at `stop` that is no digit have their digits end at the same place.
proof fn lemma_digits_end_agrees(a: Seq<u8>, b: Seq<u8>, from: int, stop: int)
    requires
        0 <= from <= stop < a.len(),
        stop < b.len(),
        forall|i: int| from <= i <= stop ==> a[i] == b[i],
        !is_digit(a[stop]),
    ensures
        digits_end(a, from) == digits_end(b, from),
        digits_end(a, from) <= stop,
    decreases stop - from,
{
    if is_digit(a[from]) {
        lemma_digits_end_agrees(a, b, from + 1, stop);
    }
}

/// What is appended behind a log that ends with a separator does not change
/// what the entries of the log name.
proof fn lemma_checkpoint_prefix(log: Seq<u8>, more: Seq<u8>, from: int)
    requires
        0 <= from <= log.len(),
        log.len() == 0 || is_separator(log.last()),
    ensures
        spec_checkpoint_from(log + more, from) == spec_checkpoint_from(log, from).union(
            spec_checkpoint_from(log + more, log.len() as int),
        ),
    decreases log.len() - from,
{
    let whole = log + more;
    if from < log.len() {
        let stop = log.len() - 1;
        assert forall|i: int| from <= i <= stop implies log[i] == whole[i] by {}
        lemma_entry_agrees(log, whole, from, stop);
        let end = from + entry_len(log, from);
        lemma_checkpoint_prefix(log, more, end + 1);
        let rest_log = spec_checkpoint_from(log, end + 1);
        let tail = spec_checkpoint_from(whole, log.len() as int);
        match spec_entry(log, from, end) {
            Some(piece) => {
                assert(rest_log.union(tail).insert(piece) =~= rest_log.insert(piece).union(tail));
            },
            None => {},
        }
    } else {
        assert(spec_checkpoint_from(log, from) =~= Set::<usize>::empty());
        assert(Set::<usize>::empty().union(spec_checkpoint_from(whole, log.len() as int)) =~= spec_checkpoint_from(
            whole,
            log.len() as int,
        ));
    }
}

/// The entries that record pieces start with the entry of the first.
proof fn lemma_entries_first(pieces: Seq<usize>)
    requires
        pieces.len() > 0,
    ensures
        spec_checkpoint_entries(pieces) == spec_checkpoint_entry(pieces[0]) + spec_checkpoint_entries(
            pieces.drop_first(),
        ),
    decreases pieces.len(),
{
    if pieces.len() == 1 {
        assert(pieces.drop_last() =~= Seq::<usize>::empty());
        assert(pieces.drop_first() =~= Seq::<usize>::empty());
        assert(spec_checkpoint_entries(pieces) =~= spec_checkpoint_entry(pieces[0]) + spec_checkpoint_entries(
            pieces.drop_first(),
        ));
    } else {
        lemma_entries_first(pieces.drop_last());
        assert(pieces.drop_last().drop_first() =~= pieces.drop_first().drop_last());
        assert(pieces.drop_last()[0] == pieces[0]);
        assert(pieces.drop_first().last() == pieces.last());
        assert(spec_checkpoint_entries(pieces) =~= spec_checkpoint_entry(pieces[0]) + spec_checkpoint_entries(
            pieces.drop_first(),
        ));
    }
}

/// The records of pieces, read from where they start, name those pieces.
proof fn lemma_checkpoint_of_entries(before: Seq<u8>, pieces: Seq<usize>)
    ensures
        spec_checkpoint_from(before + spec_checkpoint_entries(pieces), before.len() as int) == pieces.to_set(),
    decreases pieces.len(),
{
    let whole = before + spec_checkpoint_entries(pieces);
    let from = before.len() as int;
    if pieces.len() == 0 {
        assert(whole =~= before);
        assert(pieces.to_set() =~= Set::<usize>::empty());
    } else {
        let piece = pieces[0];
        let rest = pieces.drop_first();
        let digits = spec_digits(piece as nat);
        lemma_entries_first(pieces);
        lemma_digits(piece as nat);
        let end = from + digits.len();
        assert(whole =~= (before + spec_checkpoint_entry(piece)) + spec_checkpoint_entries(rest));
        assert forall|i: int| from <= i < end implies whole[i] == digits[i - from] by {}
        assert(whole[end] == COMMA);
        assert forall|i: int| from <= i < end implies is_digit(#[trigger] whole[i]) by {
            assert(whole[i] == digits[i - from]);
        }
        lemma_entry_len_is(whole, from, end);
        lemma_digits_end_of_run(whole, from, end);
        assert(whole.subrange(from, end) =~= digits);
        assert(skip_spaces(whole, from, end) == from);
        assert(is_digit(whole[end - 1]));
        assert(drop_spaces(whole, from, end) == end);
        assert(spec_entry(whole, from, end) == Some(piece));
        lemma_checkpoint_of_entries(before + spec_checkpoint_entry(piece), rest);
        assert((before + spec_checkpoint_entry(piece)).len() == end + 1);
        assert(pieces.to_set() =~= rest.to_set().insert(piece)) by {
            assert forall|x: usize| pieces.to_set().contains(x) <==> rest.to_set().insert(piece).contains(x) by {
                if pieces.contains(x) {
                    let i = choose|i: int| 0 <= i < pieces.len() && pieces[i] == x;
                    if i > 0 {
                        assert(rest[i - 1] == x);
                    }
                }
                if rest.contains(x) {
                    let i = choose|i: int| 0 <= i < rest.len() && rest[i] == x;
                    assert(pieces[i + 1] == x);
                }
                assert(pieces[0] == piece);
            }
        }
    }
}

/// An entry that runs from `from` to a separator at `end` is that long.
proof fn lemma_entry_len_is(s: Seq<u8>, from: int, end: int)
    requires
        0 <= from <= end < s.len(),
        forall|i: int| from <= i < end ==> !is_separator(#[trigger] s[i]),
        is_separator(s[end]),
    ensures
        from + entry_len(s, from) == end,
    decreases end - from,
{
    if from < end {
        lemma_entry_len_is(s, from + 1, end);
    }
}

/// After pieces were recorded in a log that ends where an entry ends, the
/// log names the pieces that it named before and the pieces recorded: what
/// was written and recorded is found again.
pub proof fn lemma_checkpoint_after_append(log: Seq<u8>, pieces: Seq<usize>)
    requires
        log.len() == 0 || is_separator(log.last()),
    ensures
        spec_checkpoint(log + spec_checkpoint_entries(pieces)) == spec_checkpoint(log).union(pieces.to_set()),
{
    lemma_checkpoint_prefix(log, spec_checkpoint_entries(pieces), 0);
    lemma_checkpoint_of_entries(log, pieces);
}

fn is_space_byte(b: u8) -> (r: bool)
    ensures
        r == is_space(b),
{
    b == 0x20 || (0x09 <= b && b <= 0x0d)
}

/// Reads the entry between `from` and `end`.
fn entry_at(s: &[u8], from: usize, end: usize) -> (r: Option<usize>)
    requires
        from <= end <= s.len(),
    ensures
        r == spec_entry(s@, from as int, end as int),
{
    let mut first: usize = from;
    while first < end && is_space_byte(s[first])
        invariant
            from <= first <= end <= s.len(),
            skip_spaces(s@, from as int, end as int) == skip_spaces(s@, first as int, end as int),
        decreases end - first,
    {
        first += 1;
    }
    let mut last: usize = end;
    while first < last && is_space_byte(s[last - 1])
        invariant
            first <= last <= end <= s.len(),
            drop_spaces(s@, first as int, end as int) == drop_spaces(s@, first as int, last as int),
        decreases last - first,
    {
        last -= 1;
    }
    let start: usize = if first < last && s[first] == PLUS_SIGN {
        first + 1
    } else {
        first
    };
    if start >= last {
        return None;
    }
    let (stop, value) = scan_digits(s, start, usize::MAX as u64);
    if stop != last {
        return None;
    }
    match value {
        Some(v) => Some(v as usize),
        None => None,
    }
}

/// The pieces that a checkpoint log names as complete.
pub fn parse_checkpoint(content: &[u8]) -> (pieces: HashSet<usize>)
    ensures
        pieces@ == spec_checkpoint(content@),
{
    let mut pieces: HashSet<usize> = HashSet::new();
    let mut from: usize = 0;
    let ghost mut seen: Set<usize> = Set::empty();
    while from < content.len()
        invariant
            from <= content.len(),
            pieces@ == seen,
            spec_checkpoint(content@) == seen.union(spec_checkpoint_from(content@, from as int)),
        decreases content.len() - from,
    {
        let mut end: usize = from;
        while end < content.len() && content[end] != COMMA && content[end] != LINE_FEED
            invariant
                from <= end <= content.len(),
                from + entry_len(content@, from as int) == end + entry_len(content@, end as int),
            decreases content.len() - end,
        {
            end += 1;
        }
        let ghost rest = spec_checkpoint_from(content@, end + 1);
        match entry_at(content, from, end) {
            Some(piece) => {
                pieces.insert(piece);
                proof {
                    assert(seen.union(rest.insert(piece)) =~= seen.insert(piece).union(rest));
                    seen = seen.insert(piece);
                }
            },
            None => {},
        }
        if end < content.len() {
            from = end + 1;
        } else {
            from = end;
        }
    }
    assert(seen.union(Set::<usize>::empty()) =~= seen);
    pieces
}

/// Appends the entry that records piece `piece_id`.
pub fn push_checkpoint_entry(out: &mut Vec<u8>, piece_id: usize)
    ensures
        final(out)@ == old(out)@ + spec_checkpoint_entry(piece_id),
{
    push_digits(out, piece_id as u64);
    out.push(COMMA);
    assert(out@ =~= old(out)@ + spec_checkpoint_entry(piece_id));
}

/// One step of a write.
#[derive(Debug, PartialEq, Eq)]
pub enum StorageOp {
    /// Seek to `offset` in the output file and write `bytes` there.
    WriteData { offset: u64, bytes: Vec<u8> },
    /// Force what was written to the output file onto the device.
    SyncData,
    /// Append `entries` to the checkpoint log.
    AppendCheckpoint { entries: Vec<u8> },
    /// Force what was appended to the checkpoint log onto the device.
    SyncCheckpoint,
}

/// The mathematical value of a `StorageOp`.
pub ghost enum StorageStep {
    WriteData { offset: u64, bytes: Seq<u8> },
    SyncData,
    AppendCheckpoint { entries: Seq<u8> },
    SyncCheckpoint,
}

impl View for StorageOp {
    type V = StorageStep;

    open spec fn view(&self) -> StorageStep {
        match self {
            StorageOp::WriteData { offset, bytes } => StorageStep::WriteData { offset: *offset, bytes: bytes@ },
            StorageOp::SyncData => StorageStep::SyncData,
            StorageOp::AppendCheckpoint { entries } => StorageStep::AppendCheckpoint { entries: entries@ },
            StorageOp::SyncCheckpoint => StorageStep::SyncCheckpoint,
        }
    }
}

/// The steps as their mathematical values.
pub open spec fn steps_view(ops: Seq<StorageOp>) -> Seq<StorageStep> {
    Seq::new(ops.len(), |i: int| ops[i]@)
}

/// The pieces as their numbers and contents.
pub open spec fn pieces_view(pieces: Seq<(usize, Vec<u8>)>) -> Seq<(usize, Seq<u8>)> {
    Seq::new(pieces.len(), |i: int| (pieces[i].0, pieces[i].1@))
}

/// The writes of `pieces`, each at the offset of its piece.
pub open spec fn spec_data_writes(pieces: Seq<(usize, Seq<u8>)>, piece_length: usize) -> Seq<StorageStep> {
    Seq::new(
        pieces.len(),
        |i: int| StorageStep::WriteData { offset: (pieces[i].0 * piece_length) as u64, bytes: pieces[i].1 },
    )
}

/// The numbers of `pieces`.
pub open spec fn piece_ids(pieces: Seq<(usize, Seq<u8>)>) -> Seq<usize> {
    Seq::new(pieces.len(), |i: int| pieces[i].0)
}

/// The steps that write `pieces`: every piece is written at its offset, the
/// output file is forced onto the device, and only then are the pieces
/// recorded in the checkpoint log, which is forced onto the device last.
pub open spec fn spec_write_plan(pieces: Seq<(usize, Seq<u8>)>, piece_length: usize) -> Seq<StorageStep> {
    spec_data_writes(pieces, piece_length) + seq![
        StorageStep::SyncData,
        StorageStep::AppendCheckpoint { entries: spec_checkpoint_entries(piece_ids(pieces)) },
        StorageStep::SyncCheckpoint,
    ]
}

/// The checkpoint log after the steps `steps` were taken on a log that held
/// `log`: only an append changes it.
pub open spec fn log_after(log: Seq<u8>, steps: Seq<StorageStep>) -> Seq<u8>
    decreases steps.len(),
{
    if steps.len() == 0 {
        log
    } else {
        let before = log_after(log, steps.drop_last());
        match steps.last() {
            StorageStep::AppendCheckpoint { entries } => before + entries,
            _ => before,
        }
    }
}

/// If a write stops before its append to the checkpoint log, whether before
/// or after any of the data was written or forced onto the device, the log
/// is what it was, and so are the pieces that it names as complete: a piece
/// whose record did not reach the log is downloaded again. And the append
/// comes only after the output file was forced onto the device.
pub proof fn lemma_crash_before_append(
    log: Seq<u8>,
    pieces: Seq<(usize, Seq<u8>)>,
    piece_length: usize,
    taken: int,
)
    requires
        0 <= taken <= pieces.len() + 1,
    ensures
        log_after(log, spec_write_plan(pieces, piece_length).take(taken)) == log,
        spec_checkpoint(log_after(log, spec_write_plan(pieces, piece_length).take(taken))) == spec_checkpoint(
            log,
        ),
        spec_write_plan(pieces, piece_length)[pieces.len() as int] is SyncData,
        spec_write_plan(pieces, piece_length)[pieces.len() as int + 1] is AppendCheckpoint,
        forall|i: int| 0 <= i < pieces.len() ==> (#[trigger] spec_write_plan(pieces, piece_length)[i]) is WriteData,
    decreases taken,
{
    let plan = spec_write_plan(pieces, piece_length);
    if taken > 0 {
        lemma_crash_before_append(log, pieces, piece_length, taken - 1);
        assert(plan.take(taken).drop_last() =~= plan.take(taken - 1));
        assert(plan.take(taken).last() == plan[taken - 1]);
    }
}

/// After the whole write the log holds what it held and, behind that, the
/// records of the pieces.
pub proof fn lemma_log_after_write(log: Seq<u8>, pieces: Seq<(usize, Seq<u8>)>, piece_length: usize)
    ensures
        log_after(log, spec_write_plan(pieces, piece_length)) == log + spec_checkpoint_entries(piece_ids(pieces)),
{
    let plan = spec_write_plan(pieces, piece_length);
    let n = pieces.len() as int;
    lemma_crash_before_append(log, pieces, piece_length, n + 1);
    let recorded = plan.drop_last();
    let forced = recorded.drop_last();
    assert(forced =~= plan.take(n + 1));
    assert(recorded.last() == plan[n + 1]);
    assert(plan.last() == plan[n + 2]);
    assert(log_after(log, recorded) == log_after(log, forced) + spec_checkpoint_entries(piece_ids(pieces)));
    assert(log_after(log, plan) == log_after(log, recorded));
}

/// The steps that write `pieces` to a file whose pieces are `piece_length`
/// bytes long.
pub fn plan_write(pieces: Vec<(usize, Vec<u8>)>, piece_length: usize) -> (plan: Vec<StorageOp>)
    requires
        forall|i: int| 0 <= i < pieces@.len() ==> (#[trigger] pieces@[i]).0 * piece_length <= u64::MAX,
    ensures
        steps_view(plan@) == spec_write_plan(pieces_view(pieces@), piece_length),
{
    let ghost wanted = pieces_view(pieces@);
    let mut entries: Vec<u8> = Vec::new();
    let mut plan: Vec<StorageOp> = Vec::new();
    let mut pieces = pieces;
    let mut offsets: Vec<u64> = Vec::new();
    let mut i: usize = 0;
    assert(piece_ids(wanted).take(0) =~= Seq::<usize>::empty());
    while i < pieces.len()
        invariant
            i <= pieces.len(),
            wanted == pieces_view(pieces@),
            forall|j: int| 0 <= j < pieces@.len() ==> (#[trigger] pieces@[j]).0 * piece_length <= u64::MAX,
            offsets@.len() == i,
            forall|j: int| 0 <= j < i ==> (#[trigger] offsets@[j]) == (wanted[j].0 * piece_length) as u64,
            entries@ == spec_checkpoint_entries(piece_ids(wanted).take(i as int)),
        decreases pieces.len() - i,
    {
        let piece_id: usize = pieces[i].0;
        assert(pieces@[i as int].0 * piece_length <= u64::MAX);
        assert(piece_id == wanted[i as int].0);
        let offset: u64 = ((piece_id as u128) * (piece_length as u128)) as u64;
        offsets.push(offset);
        assert(piece_ids(wanted).take(i + 1).drop_last() =~= piece_ids(wanted).take(i as int));
        push_checkpoint_entry(&mut entries, piece_id);
        i += 1;
    }
    assert(piece_ids(wanted).take(pieces.len() as int) =~= piece_ids(wanted));
    let total: usize = pieces.len();
    let mut k: usize = total;
    while k > 0
        invariant
            k <= total,
            total == wanted.len(),
            offsets@.len() == total,
            pieces@.len() == k,
            forall|j: int| 0 <= j < k ==> (#[trigger] pieces@[j]).0 == wanted[j].0 && pieces@[j].1@ == wanted[j].1,
            forall|j: int| 0 <= j < total ==> (#[trigger] offsets@[j]) == (wanted[j].0 * piece_length) as u64,
            plan@.len() == total - k,
            forall|j: int| 0 <= j < total - k ==> (#[trigger] plan@[j])@ == spec_data_writes(wanted, piece_length)[k + j],
        decreases k,
    {
        let offset = offsets[k - 1];
        match pieces.pop() {
            Some((piece_id, bytes)) => {
                plan.insert(0, StorageOp::WriteData { offset, bytes });
            },
            None => {},
        }
        k -= 1;
    }
    plan.push(StorageOp::SyncData);
    plan.push(StorageOp::AppendCheckpoint { entries });
    plan.push(StorageOp::SyncCheckpoint);
    assert(steps_view(plan@) =~= spec_write_plan(wanted, piece_length));
    plan
}

} // verus!
