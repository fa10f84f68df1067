//! The storage engine's bookkeeping: which segments exist, where the next
//! record goes, and where the latest record of each key stands.
//!
//! The store holds no file. An operation that changes the log returns the
//! bytes to append and says where; the caller appends them. The store keeps,
//! for contracts only, the bytes that every segment holds once the caller has
//! done so.
//!
//! A caller that wants a failed write to leave no trace asks first what an
//! operation would append (`plan_set`, `plan_remove`, `plan_compaction`),
//! writes that, and only then lets the store take the step (`set`, `remove`,
//! `compress_by_index`), which gives the same answer again.
//!
//! A value is read in two steps: `locate` gives the place of the key's
//! record, and `read_value` gives the value from the bytes found there.

use vstd::prelude::*;
use vstd::slice::slice_subrange;
use crate::codec::{scan_frame, Frame, MAX_DOCUMENT_LEN};
use crate::error::KvsError;
use crate::index::Index;
use crate::compaction::{
    compacted, compacted_disk, distinct, entries_stand, landing, lemma_compacted_dom,
    lemma_compacted_keeps, lemma_compacted_moves, lemma_compaction_replay, lemma_copied_records,
    lemma_copied_slice, lemma_moved_len_grows, moved_len, moves,
};
use crate::log::{
    apply_all, ascending, clean, lemma_first_record_bounds, lemma_record_at_append,
    lemma_record_at_end, lemma_records_empty, lemma_replay_agree, lemma_replay_append,
    lemma_replay_push_empty, lemma_valid_prefix, place, record_at, records, records_from,
    replay, valid_end, walk_all, Disk, Event, IndexView,
};
pub use crate::log::TransactionPosition;
pub use crate::record::Transaction;
use crate::record::{
    first_record, lemma_record_len, lemma_record_round_trip, parse_record, record_bytes,
    record_len, Record,
};

verus! {

/// The size that a `set` does not let the active segment grow past: a record
/// that would cross it goes to a new segment.
pub const LOG_MAX_SIZE: u32 = 25_165_824;

/// The append cursor of the active segment, with the bytes that wait to be
/// stored.
pub struct BufferWriter {
    pending: Vec<u8>,
    pos: u32,
}

impl BufferWriter {
    /// Where the next byte goes, counted from the segment's start.
    pub closed spec fn position(&self) -> nat {
        self.pos as nat
    }

    /// The bytes written and not yet flushed.
    pub closed spec fn buffered(&self) -> Seq<u8> {
        self.pending@
    }

    /// A writer at the start of an empty segment.
    pub fn new() -> (writer: BufferWriter)
        ensures
            writer.position() == 0,
            writer.buffered() == Seq::<u8>::empty(),
    {
        BufferWriter { pending: Vec::new(), pos: 0 }
    }

    /// A writer at the end of a segment of `pos` bytes.
    pub fn at(pos: u32) -> (writer: BufferWriter)
        ensures
            writer.position() == pos,
            writer.buffered() == Seq::<u8>::empty(),
    {
        BufferWriter { pending: Vec::new(), pos }
    }

    /// Where the next byte goes.
    pub fn pos(&self) -> (pos: u32)
        ensures
            pos == self.position(),
    {
        self.pos
    }

    /// Takes `data` into the buffer and moves the cursor past it; gives the
    /// number of bytes taken. `TooLarge`, with nothing changed, where the
    /// cursor would pass the last 32-bit offset.
    pub fn write(&mut self, data: &[u8]) -> (out: Result<u32, KvsError>)
        ensures
            out is Ok <==> old(self).position() + data@.len() <= u32::MAX,
            match out {
                Ok(size) => {
                    &&& size == data@.len()
                    &&& final(self).position() == old(self).position() + data@.len()
                    &&& final(self).buffered() == old(self).buffered() + data@
                },
                Err(e) => e == KvsError::TooLarge && *final(self) == *old(self),
            },
    {
        if data.len() > (u32::MAX - self.pos) as usize {
            return Err(KvsError::TooLarge);
        }
        let size = data.len() as u32;
        crate::codec::append_bytes(&mut self.pending, data);
        self.pos = self.pos + size;
        Ok(size)
    }

    /// Hands out the buffered bytes, which the caller stores at the end of
    /// the segment, and leaves the buffer empty.
    pub fn flush(&mut self) -> (bytes: Vec<u8>)
        ensures
            bytes@ == old(self).buffered(),
            final(self).buffered() == Seq::<u8>::empty(),
            final(self).position() == old(self).position(),
    {
        let mut bytes: Vec<u8> = Vec::new();
        std::mem::swap(&mut bytes, &mut self.pending);
        bytes
    }
}

/// Bytes to append to a segment.
#[derive(Clone, Debug, PartialEq, Eq)]
pub struct Append {
    /// Whether the segment is new: the caller creates it first.
    pub opened: bool,
    /// The id of the segment.
    pub segment: u32,
    /// The length that the segment has before the bytes are appended.
    pub offset: u32,
    /// The bytes.
    pub bytes: Vec<u8>,
    /// Where the record stands that the key pointed at until now, if it
    /// pointed at one. It still stands there; its value is the prior value.
    pub replaced: Option<TransactionPosition>,
}

/// One record to copy: from where it stands to the end of the new segment.
#[derive(Clone, Copy, Debug, PartialEq, Eq, Structural)]
pub struct Move {
    /// Where the record stands.
    pub from: TransactionPosition,
    /// The length that the new segment has before the record is appended.
    pub to: u32,
}

/// What compaction has the caller do: create the segment, copy the records
/// into it in this order, then delete the segments named.
#[derive(Clone, Debug, PartialEq, Eq)]
pub struct Compaction {
    /// The id of the new segment.
    pub segment: u32,
    /// The records to copy, in order.
    pub moves: Vec<Move>,
    /// The ids of the segments to delete.
    pub removed: Vec<u32>,
}

/// The copies that the first `i` keys of the walk ask for.
pub open spec fn planned_moves(
    index: IndexView,
    keys: Seq<Seq<char>>,
    active: u32,
    i: nat,
) -> Seq<Move>
    decreases i,
{
    if i == 0 {
        Seq::empty()
    } else {
        let before = planned_moves(index, keys, active, (i - 1) as nat);
        if moves(index, active, keys[i - 1]) {
            before.push(
                Move {
                    from: index[keys[i - 1]],
                    to: moved_len(index, keys, active, (i - 1) as nat) as u32,
                },
            )
        } else {
            before
        }
    }
}

/// The value that the record at a place gives.
pub open spec fn value_at(disk: Disk, at: TransactionPosition) -> Seq<char> {
    match record_at(disk, at) {
        Some(Record::Put(_, value)) => value,
        _ => Seq::empty(),
    }
}

/// What a key-value map holds after the given sets, one after the other.
pub open spec fn after_sets(
    start: Map<Seq<char>, Seq<char>>,
    sets: Seq<(Seq<char>, Seq<char>)>,
) -> Map<Seq<char>, Seq<char>>
    decreases sets.len(),
{
    if sets.len() == 0 {
        start
    } else {
        after_sets(start, sets.drop_last()).insert(sets.last().0, sets.last().1)
    }
}

/// Sets of different keys do not disturb each other: in whatever order they
/// take their turns, every one of the keys has its value afterwards.
pub proof fn lemma_sets_of_different_keys(
    start: Map<Seq<char>, Seq<char>>,
    sets: Seq<(Seq<char>, Seq<char>)>,
    i: int,
)
    requires
        0 <= i < sets.len(),
        forall|a: int, b: int| 0 <= a < b < sets.len() ==> sets[a].0 != sets[b].0,
    ensures
        after_sets(start, sets).contains_key(sets[i].0),
        after_sets(start, sets)[sets[i].0] == sets[i].1,
    decreases sets.len(),
{
    if i < sets.len() - 1 {
        let front = sets.drop_last();
        assert forall|a: int, b: int| 0 <= a < b < front.len() implies front[a].0 != front[b].0 by {
            assert(front[a] == sets[a] && front[b] == sets[b]);
        }
        lemma_sets_of_different_keys(start, front, i);
        assert(sets[i].0 != sets[sets.len() - 1].0);
    }
}

/// The running storage instance.
pub struct KVStore {
    index: Index,
    segments: Vec<u32>,
    writer: BufferWriter,
    disk: Ghost<Disk>,
}

impl KVStore {
    /// The index.
    pub closed spec fn index_view(&self) -> IndexView {
        self.index@
    }

    /// The ids of the segments, oldest first. The last one is active.
    pub closed spec fn segment_ids(&self) -> Seq<u32> {
        self.segments@
    }

    /// The length of the active segment.
    pub closed spec fn position(&self) -> nat {
        self.writer.position()
    }

    /// The bytes of every segment, once the caller has stored all that the
    /// store has handed out.
    pub closed spec fn disk(&self) -> Disk {
        self.disk@
    }

    /// The keys of the index in the order in which compaction walks them.
    pub closed spec fn key_order(&self) -> Seq<Seq<char>> {
        self.index.key_seq()
    }

    /// What holds of the private parts.
    pub closed spec fn parts_wf(&self) -> bool {
        &&& self.index.wf()
        &&& self.writer.buffered().len() == 0
    }

    /// The invariant of the store.
    pub open spec fn wf(&self) -> bool {
        &&& self.parts_wf()
        &&& ascending(self.segment_ids())
        &&& forall|id: u32| #[trigger]
            self.disk().contains_key(id) <==> self.segment_ids().contains(id)
        &&& forall|id: u32| #[trigger]
            self.disk().contains_key(id) ==> clean(self.disk()[id]) && self.disk()[id].len()
                <= u32::MAX
        &&& self.position() == if self.segment_ids().len() == 0 {
            0
        } else {
            self.disk()[self.segment_ids().last()].len()
        }
        &&& self.index_view() == replay(self.segment_ids(), self.disk())
        &&& forall|key: Seq<char>| #[trigger]
            self.index_view().contains_key(key) ==> (record_at(
                self.disk(),
                self.index_view()[key],
            ) matches Some(Record::Put(k, _)) && k == key)
    }

    /// The key-value map that the store stands for.
    pub open spec fn contents(&self) -> Map<Seq<char>, Seq<char>> {
        Map::new(
            |key: Seq<char>| self.index_view().contains_key(key),
            |key: Seq<char>| value_at(self.disk(), self.index_view()[key]),
        )
    }

    /// The place that the index gives for a key, if it gives one.
    pub open spec fn entry(&self, key: Seq<char>) -> Option<TransactionPosition> {
        if self.index_view().contains_key(key) {
            Some(self.index_view()[key])
        } else {
            None
        }
    }

    /// Whether a `set` whose record has `len` bytes opens a new segment:
    /// there is none yet, or the record would make the active one longer
    /// than `LOG_MAX_SIZE`.
    pub open spec fn rotation_due(&self, len: nat) -> bool {
        self.segment_ids().len() == 0 || self.position() + len > LOG_MAX_SIZE
    }

    /// The id that the next new segment gets.
    pub open spec fn next_segment(&self) -> int {
        if self.segment_ids().len() == 0 {
            0
        } else {
            self.segment_ids().last() + 1
        }
    }

    /// A store over an empty directory: no segment, no entry.
    pub fn new() -> (store: KVStore)
        ensures
            store.wf(),
            store.segment_ids().len() == 0,
            store.index_view() == Map::<Seq<char>, TransactionPosition>::empty(),
            store.disk() == Map::<u32, Seq<u8>>::empty(),
            store.key_order() == Seq::<Seq<char>>::empty(),
            store.position() == 0,
    {
        KVStore {
            index: Index::new(),
            segments: Vec::new(),
            writer: BufferWriter::new(),
            disk: Ghost(Map::empty()),
        }
    }

    /// The id of the active segment, if there is a segment.
    pub fn max_reader_id(&self) -> (id: Option<u32>)
        ensures
            id == if self.segment_ids().len() == 0 {
                None
            } else {
                Some(self.segment_ids().last())
            },
    {
        if self.segments.len() == 0 {
            None
        } else {
            Some(self.segments[self.segments.len() - 1])
        }
    }

    /// The ids of the segments, oldest first.
    pub fn segments(&self) -> (ids: &Vec<u32>)
        ensures
            ids@ == self.segment_ids(),
    {
        &self.segments
    }

    /// The length of the active segment.
    pub fn active_len(&self) -> (len: u32)
        ensures
            len == self.position(),
    {
        self.writer.pos()
    }

    /// Whether a `set` whose record has `len` bytes opens a new segment.
    pub fn needs_rotation(&self, len: u32) -> (due: bool)
        ensures
            due == self.rotation_due(len as nat),
    {
        self.segments.len() == 0 || self.writer.pos() > LOG_MAX_SIZE || len > LOG_MAX_SIZE
            - self.writer.pos()
    }

    /// Opens the next segment and makes it the active one.
    fn rotate(&mut self) -> (out: Result<u32, KvsError>)
        requires
            old(self).wf(),
        ensures
            out is Ok <==> old(self).next_segment() <= u32::MAX,
            match out {
                Ok(id) => {
                    &&& final(self).wf()
                    &&& id == old(self).next_segment()
                    &&& final(self).segment_ids() == old(self).segment_ids().push(id)
                    &&& final(self).disk() == old(self).disk().insert(id, Seq::empty())
                    &&& final(self).index_view() == old(self).index_view()
                    &&& final(self).key_order() == old(self).key_order()
                    &&& final(self).position() == 0
                },
                Err(e) => e == KvsError::SegmentsExhausted && *final(self) == *old(self),
            },
    {
        let id: u32 = match self.max_reader_id() {
            None => 0,
            Some(last) => {
                if last == u32::MAX {
                    return Err(KvsError::SegmentsExhausted);
                }
                last + 1
            },
        };
        let ghost ids = self.segments@;
        let ghost before = self.disk@;
        let ghost after = before.insert(id, Seq::<u8>::empty());
        proof {
            assert(!ids.contains(id)) by {
                if ids.contains(id) {
                    let i = choose|i: int| 0 <= i < ids.len() && ids[i] == id;
                    if i < ids.len() - 1 {
                        assert(ids[i] < ids[ids.len() - 1]);
                    }
                }
            }
            assert(!before.contains_key(id));
            lemma_records_empty();
            lemma_replay_push_empty(ids, after, id);
            assert forall|i: int| 0 <= i < ids.len() implies before[#[trigger] ids[i]] == after[ids[i]] by {
                assert(ids.contains(ids[i]));
            }
            lemma_replay_agree(ids, before, after);
        }
        self.segments.push(id);
        self.writer = BufferWriter::new();
        self.disk = Ghost(after);
        proof {
            let now = self.segments@;
            assert(ascending(now)) by {
                assert forall|i: int, j: int| 0 <= i < j < now.len() implies now[i] < now[j] by {
                    if j == now.len() - 1 {
                        assert(now[i] == ids[i]);
                        if ids.len() > 0 {
                            if i < ids.len() - 1 {
                                assert(ids[i] < ids[ids.len() - 1]);
                            }
                        }
                    } else {
                        assert(now[i] == ids[i] && now[j] == ids[j]);
                    }
                }
            }
            assert forall|other: u32| #[trigger] after.contains_key(other) <==> now.contains(
                other,
            ) by {
                if other == id {
                    assert(now[now.len() - 1] == id);
                } else {
                    if before.contains_key(other) {
                        assert(ids.contains(other));
                        let i = choose|i: int| 0 <= i < ids.len() && ids[i] == other;
                        assert(now[i] == other);
                    }
                    if now.contains(other) {
                        let i = choose|i: int| 0 <= i < now.len() && now[i] == other;
                        assert(ids[i] == other);
                    }
                }
            }
            assert forall|key: Seq<char>| #[trigger]
                self.index_view().contains_key(key) implies (record_at(
                after,
                self.index_view()[key],
            ) matches Some(Record::Put(k, _)) && k == key) by {
                let at = self.index_view()[key];
                assert(record_at(before, at) is Some);
                assert(before.contains_key(at.log_reader_id));
                assert(record_at(after, at) == record_at(before, at));
            }
        }
        Ok(id)
    }

    /// Why `set` would fail, if it would: the record is too large, or a new
    /// segment is due and no id is left.
    pub open spec fn set_error(&self, key: Seq<char>, value: Seq<char>) -> Option<KvsError> {
        if record_len(Record::Put(key, value)) > MAX_DOCUMENT_LEN {
            Some(KvsError::TooLarge)
        } else if self.rotation_due(record_len(Record::Put(key, value))) && self.next_segment()
            > u32::MAX {
            Some(KvsError::SegmentsExhausted)
        } else {
            None
        }
    }

    /// Where `set` puts its record: in a new segment where one is due, else at
    /// the end of the active one.
    pub open spec fn set_place(&self, key: Seq<char>, value: Seq<char>) -> TransactionPosition {
        TransactionPosition {
            log_reader_id: if self.rotation_due(record_len(Record::Put(key, value))) {
                self.next_segment() as u32
            } else {
                self.segment_ids().last()
            },
            offset: if self.rotation_due(record_len(Record::Put(key, value))) {
                0
            } else {
                self.position() as u32
            },
            len: record_len(Record::Put(key, value)) as u32,
        }
    }

    /// Why `remove` would fail, if it would: the key has no entry, or the
    /// record does not fit.
    pub open spec fn remove_error(&self, key: Seq<char>) -> Option<KvsError> {
        if !self.index_view().contains_key(key) {
            Some(KvsError::KeyNotFound)
        } else if record_len(Record::Remove(key)) > MAX_DOCUMENT_LEN || self.position()
            + record_len(Record::Remove(key)) > u32::MAX {
            Some(KvsError::TooLarge)
        } else {
            None
        }
    }

    /// What `set` would have the caller append, with nothing changed.
    pub fn plan_set(&self, key: &String, value: &String) -> (out: Result<Append, KvsError>)
        requires
            self.wf(),
        ensures
            out is Ok <==> self.set_error(key@, value@) is None,
            match out {
                Ok(append) => {
                    &&& append.opened == self.rotation_due(record_len(Record::Put(key@, value@)))
                    &&& append.segment == self.set_place(key@, value@).log_reader_id
                    &&& append.offset == self.set_place(key@, value@).offset
                    &&& append.bytes@ == record_bytes(Record::Put(key@, value@))
                    &&& append.replaced == self.entry(key@)
                    &&& append.offset == 0 || append.offset + append.bytes@.len() <= LOG_MAX_SIZE
                },
                Err(e) => Some(e) == self.set_error(key@, value@),
            },
    {
        let record = Transaction::Put(key.clone(), value.clone());
        let bytes = match record.to_bytes() {
            Ok(bytes) => bytes,
            Err(e) => {
                return Err(e);
            },
        };
        proof {
            lemma_record_len(Record::Put(key@, value@));
        }
        if self.needs_rotation(bytes.len() as u32) {
            let segment: u32 = match self.max_reader_id() {
                None => 0,
                Some(last) => {
                    if last == u32::MAX {
                        return Err(KvsError::SegmentsExhausted);
                    }
                    last + 1
                },
            };
            Ok(Append { opened: true, segment, offset: 0, bytes, replaced: self.index.get(key) })
        } else {
            let segment = self.segments[self.segments.len() - 1];
            Ok(
                Append {
                    opened: false,
                    segment,
                    offset: self.writer.pos(),
                    bytes,
                    replaced: self.index.get(key),
                },
            )
        }
    }

    /// Points `key` at a new record that holds `value`, after opening a new
    /// segment where one is due, and gives the bytes to append. On an error
    /// nothing is changed.
    pub fn set(&mut self, key: String, value: String) -> (out: Result<Append, KvsError>)
        requires
            old(self).wf(),
        ensures
            out is Ok <==> old(self).set_error(key@, value@) is None,
            match out {
                Ok(append) => {
                    &&& final(self).wf()
                    &&& append.opened == old(self).rotation_due(
                        record_len(Record::Put(key@, value@)),
                    )
                    &&& append.segment == old(self).set_place(key@, value@).log_reader_id
                    &&& append.offset == old(self).set_place(key@, value@).offset
                    &&& append.bytes@ == record_bytes(Record::Put(key@, value@))
                    &&& append.replaced == old(self).entry(key@)
                    &&& append.offset == 0 || append.offset + append.bytes@.len() <= LOG_MAX_SIZE
                    &&& final(self).segment_ids() == if append.opened {
                        old(self).segment_ids().push(append.segment)
                    } else {
                        old(self).segment_ids()
                    }
                    &&& final(self).segment_ids().len() == old(self).segment_ids().len() + if append.opened {
                        1nat
                    } else {
                        0nat
                    }
                    &&& final(self).disk() == if append.opened {
                        old(self).disk().insert(append.segment, append.bytes@)
                    } else {
                        old(self).disk().insert(
                            append.segment,
                            old(self).disk()[append.segment] + append.bytes@,
                        )
                    }
                    &&& final(self).index_view() == old(self).index_view().insert(
                        key@,
                        old(self).set_place(key@, value@),
                    )
                    &&& final(self).contents() == old(self).contents().insert(key@, value@)
                    &&& final(self).key_order() == if old(self).index_view().contains_key(key@) {
                        old(self).key_order()
                    } else {
                        old(self).key_order().push(key@)
                    }
                },
                Err(e) => Some(e) == old(self).set_error(key@, value@) && *final(self) == *old(
                    self,
                ),
            },
    {
        let ghost record = Record::Put(key@, value@);
        let transaction = Transaction::Put(key, value);
        let bytes = match transaction.to_bytes() {
            Ok(bytes) => bytes,
            Err(e) => {
                return Err(e);
            },
        };
        let key = match transaction {
            Transaction::Put(key, _) => key,
            Transaction::Remove(key) => key,
        };
        proof {
            lemma_record_len(record);
            lemma_record_round_trip(record);
        }
        let opened = self.needs_rotation(bytes.len() as u32);
        if opened {
            match self.rotate() {
                Ok(_) => {},
                Err(e) => {
                    return Err(e);
                },
            }
        }
        let ghost contents = old(self).contents();
        assert(self.contents() =~= contents) by {
            if opened {
                assert forall|k: Seq<char>| #[trigger]
                    self.index_view().contains_key(k) implies value_at(
                    self.disk(),
                    self.index_view()[k],
                ) == value_at(old(self).disk(), self.index_view()[k]) by {
                    let at = self.index_view()[k];
                    assert(record_at(old(self).disk(), at) is Some);
                    assert(record_at(self.disk(), at) == record_at(old(self).disk(), at));
                }
            }
        }
        let segment = self.segments[self.segments.len() - 1];
        let offset = self.writer.pos();
        let at = TransactionPosition { log_reader_id: segment, offset, len: bytes.len() as u32 };
        let ghost ids = self.segments@;
        let ghost before = self.disk@;
        let ghost index = self.index@;
        let ghost after = before.insert(segment, before[segment] + bytes@);
        proof {
            assert(ids.contains(ids[ids.len() - 1]));
            assert(before.contains_key(segment));
            lemma_replay_append(ids, before, bytes@);
            lemma_record_at_end(before, segment, bytes@);
            assert(at == old(self).set_place(key@, value@));
        }
        match self.writer.write(bytes.as_slice()) {
            Ok(_) => {},
            Err(_) => {
                assert(false);
            },
        }
        let bytes = self.writer.flush();
        let replaced = self.index.get(&key);
        self.index.insert(key, at);
        self.disk = Ghost(after);
        proof {
            assert forall|id: u32| #[trigger] after.contains_key(id) <==> ids.contains(id) by {}
            assert forall|k: Seq<char>| #[trigger]
                self.index_view().contains_key(k) implies (record_at(
                after,
                self.index_view()[k],
            ) matches Some(Record::Put(k2, _)) && k2 == k) && value_at(
                after,
                self.index_view()[k],
            ) == contents.insert(key@, value@)[k] by {
                if k != key@ {
                    lemma_record_at_append(before, segment, bytes@, index[k]);
                }
            }
            assert(self.contents() =~= contents.insert(key@, value@));
            if opened {
                assert(before[segment] + bytes@ =~= bytes@);
            }
        }
        Ok(Append { opened, segment, offset, bytes, replaced })
    }

    /// The place of the latest record of `key`; `KeyNotFound` where the key
    /// has no entry.
    pub fn locate(&self, key: &String) -> (out: Result<TransactionPosition, KvsError>)
        ensures
            out == match self.entry(key@) {
                Some(at) => Ok::<TransactionPosition, KvsError>(at),
                None => Err::<TransactionPosition, KvsError>(KvsError::KeyNotFound),
            },
    {
        match self.index.get(key) {
            Some(at) => Ok(at),
            None => Err(KvsError::KeyNotFound),
        }
    }

    /// The value that the bytes of a record give: the value of a `Put`;
    /// `KeyNotFound` for a `Remove`; `Decode` where the bytes are no record.
    pub fn read_value(bytes: &[u8]) -> (out: Result<String, KvsError>)
        ensures
            match parse_record(bytes@) {
                Some(Record::Put(_, value)) => out matches Ok(v) && v@ == value,
                Some(Record::Remove(_)) => out == Err::<String, KvsError>(KvsError::KeyNotFound),
                None => out == Err::<String, KvsError>(KvsError::Decode),
            },
    {
        match Transaction::from_bytes(bytes) {
            Ok(Transaction::Put(_, value)) => Ok(value),
            Ok(Transaction::Remove(_)) => Err(KvsError::KeyNotFound),
            Err(e) => Err(e),
        }
    }

    /// What `remove` would have the caller append, with nothing changed.
    pub fn plan_remove(&self, key: &String) -> (out: Result<Append, KvsError>)
        requires
            self.wf(),
        ensures
            out is Ok <==> self.remove_error(key@) is None,
            match out {
                Ok(append) => {
                    &&& !append.opened
                    &&& self.segment_ids().len() > 0
                    &&& append.segment == self.segment_ids().last()
                    &&& append.offset == self.position()
                    &&& append.bytes@ == record_bytes(Record::Remove(key@))
                    &&& append.replaced == self.entry(key@)
                },
                Err(e) => Some(e) == self.remove_error(key@),
            },
    {
        if self.index.get(key).is_none() {
            return Err(KvsError::KeyNotFound);
        }
        proof {
            self.lemma_entry_has_segment(key@);
        }
        let record = Transaction::Remove(key.clone());
        let bytes = match record.to_bytes() {
            Ok(bytes) => bytes,
            Err(e) => {
                return Err(e);
            },
        };
        proof {
            lemma_record_len(Record::Remove(key@));
        }
        if bytes.len() > (u32::MAX - self.writer.pos()) as usize {
            return Err(KvsError::TooLarge);
        }
        let segment = self.segments[self.segments.len() - 1];
        Ok(
            Append {
                opened: false,
                segment,
                offset: self.writer.pos(),
                bytes,
                replaced: self.index.get(key),
            },
        )
    }

    /// Takes `key` out of the index and gives the bytes of the tombstone to
    /// append to the active segment. On an error nothing is changed.
    pub fn remove(&mut self, key: &String) -> (out: Result<Append, KvsError>)
        requires
            old(self).wf(),
        ensures
            out is Ok <==> old(self).remove_error(key@) is None,
            match out {
                Ok(append) => {
                    &&& final(self).wf()
                    &&& !append.opened
                    &&& old(self).segment_ids().len() > 0
                    &&& append.segment == old(self).segment_ids().last()
                    &&& append.offset == old(self).position()
                    &&& append.bytes@ == record_bytes(Record::Remove(key@))
                    &&& append.replaced == old(self).entry(key@)
                    &&& final(self).segment_ids() == old(self).segment_ids()
                    &&& final(self).disk() == old(self).disk().insert(
                        append.segment,
                        old(self).disk()[append.segment] + append.bytes@,
                    )
                    &&& final(self).index_view() == old(self).index_view().remove(key@)
                    &&& final(self).contents() == old(self).contents().remove(key@)
                    &&& final(self).key_order() == old(self).key_order().remove(
                        old(self).key_order().index_of(key@),
                    )
                },
                Err(e) => Some(e) == old(self).remove_error(key@) && *final(self) == *old(self),
            },
    {
        let append = match self.plan_remove(key) {
            Ok(append) => append,
            Err(e) => {
                return Err(e);
            },
        };
        let ghost record = Record::Remove(key@);
        let ghost contents = self.contents();
        let ghost ids = self.segments@;
        let ghost before = self.disk@;
        let ghost index = self.index@;
        let segment = append.segment;
        let ghost after = before.insert(segment, before[segment] + append.bytes@);
        proof {
            lemma_record_len(record);
            lemma_record_round_trip(record);
            assert(ids.contains(ids[ids.len() - 1]));
            assert(before.contains_key(segment));
            lemma_replay_append(ids, before, append.bytes@);
        }
        match self.writer.write(append.bytes.as_slice()) {
            Ok(_) => {},
            Err(_) => {
                assert(false);
            },
        }
        let bytes = self.writer.flush();
        let removed = self.index.remove(key);
        self.disk = Ghost(after);
        proof {
            assert forall|id: u32| #[trigger] after.contains_key(id) <==> ids.contains(id) by {}
            assert forall|k: Seq<char>| #[trigger]
                self.index_view().contains_key(k) implies (record_at(
                after,
                self.index_view()[k],
            ) matches Some(Record::Put(k2, _)) && k2 == k) && value_at(
                after,
                self.index_view()[k],
            ) == contents[k] by {
                lemma_record_at_append(before, segment, append.bytes@, index[k]);
            }
            assert(self.contents() =~= contents.remove(key@));
        }
        Ok(Append { opened: false, segment, offset: append.offset, bytes, replaced: removed })
    }

    /// Why `load_segment` would fail, if it would: the id is not above the
    /// ids loaded before, or the segment is longer than 32-bit offsets reach.
    pub open spec fn load_error(&self, id: u32, len: nat) -> Option<KvsError> {
        if self.segment_ids().len() > 0 && id <= self.segment_ids().last() {
            Some(KvsError::SegmentOrder)
        } else if len > u32::MAX {
            Some(KvsError::TooLarge)
        } else {
            None
        }
    }

    /// Takes in the segment `id`, whose bytes were read from storage:
    /// replays its records into the index, up to the first place where no
    /// whole record stands, and makes it the active segment. Gives the length
    /// up to that place; the caller cuts the segment there before it appends.
    /// On an error nothing is changed.
    pub fn load_segment(&mut self, id: u32, bytes: &[u8]) -> (out: Result<u32, KvsError>)
        requires
            old(self).wf(),
        ensures
            out is Ok <==> old(self).load_error(id, bytes@.len()) is None,
            match out {
                Ok(valid) => {
                    &&& final(self).wf()
                    &&& valid == valid_end(bytes@, 0)
                    &&& final(self).segment_ids() == old(self).segment_ids().push(id)
                    &&& final(self).disk() == old(self).disk().insert(
                        id,
                        bytes@.subrange(0, valid as int),
                    )
                    &&& final(self).index_view() == apply_all(
                        old(self).index_view(),
                        id,
                        records(bytes@),
                    )
                    &&& final(self).key_order() == walk_all(
                        old(self).key_order(),
                        old(self).index_view(),
                        id,
                        records(bytes@),
                    )
                    &&& final(self).position() == valid
                },
                Err(e) => Some(e) == old(self).load_error(id, bytes@.len()) && *final(self)
                    == *old(self),
            },
    {
        match self.max_reader_id() {
            Some(last) => {
                if id <= last {
                    return Err(KvsError::SegmentOrder);
                }
            },
            None => {},
        }
        if bytes.len() > u32::MAX as usize {
            return Err(KvsError::TooLarge);
        }
        let ghost index0 = self.index@;
        let ghost keys0 = self.index.key_seq();
        let ghost before = self.disk@;
        let ghost ids = self.segments@;
        let ghost mut done: Seq<Event> = Seq::empty();
        let mut offset: usize = 0;
        assert(done + records_from(bytes@, 0) =~= records_from(bytes@, 0));
        loop
            invariant
                offset <= bytes.len() <= u32::MAX,
                self.index.wf(),
                self.segments@ == ids,
                self.disk@ == before,
                self.writer == old(self).writer,
                records_from(bytes@, 0) == done + records_from(bytes@, offset as nat),
                valid_end(bytes@, 0) == valid_end(bytes@, offset as nat),
                self.index@ == apply_all(index0, id, done),
                self.index.key_seq() == walk_all(keys0, index0, id, done),
                forall|k: Seq<char>| #[trigger]
                    self.index@.contains_key(k) ==> (index0.contains_key(k) && self.index@[k]
                        == index0[k]) || (self.index@[k].log_reader_id == id && self.index@[k].offset
                        + self.index@[k].len <= offset && (parse_record(
                        bytes@.subrange(
                            self.index@[k].offset as int,
                            self.index@[k].offset + self.index@[k].len,
                        ),
                    ) matches Some(Record::Put(k2, _)) && k2 == k)),
            ensures
                offset <= bytes.len() <= u32::MAX,
                self.index.wf(),
                self.segments@ == ids,
                self.disk@ == before,
                self.writer == old(self).writer,
                records_from(bytes@, 0) == done,
                valid_end(bytes@, 0) == offset,
                self.index@ == apply_all(index0, id, done),
                self.index.key_seq() == walk_all(keys0, index0, id, done),
                forall|k: Seq<char>| #[trigger]
                    self.index@.contains_key(k) ==> (index0.contains_key(k) && self.index@[k]
                        == index0[k]) || (self.index@[k].log_reader_id == id && self.index@[k].offset
                        + self.index@[k].len <= offset && (parse_record(
                        bytes@.subrange(
                            self.index@[k].offset as int,
                            self.index@[k].offset + self.index@[k].len,
                        ),
                    ) matches Some(Record::Put(k2, _)) && k2 == k)),
            decreases bytes.len() - offset,
        {
            let rest = slice_subrange(bytes, offset, bytes.len());
            let found = match scan_frame(rest) {
                Frame::Complete(n) => match Transaction::from_bytes(slice_subrange(rest, 0, n)) {
                    Ok(transaction) => Some((transaction, n)),
                    Err(_) => None,
                },
                _ => None,
            };
            proof {
                reveal(first_record);
                assert(first_record(rest@) == match found {
                    Some((t, n)) => Some((t@, n as nat)),
                    None => None,
                });
                if offset < bytes.len() && found is Some {
                    lemma_first_record_bounds(rest@);
                }
            }
            match found {
                Some((transaction, n)) => {
                    if offset == bytes.len() {
                        break ;
                    }
                    let at = TransactionPosition {
                        log_reader_id: id,
                        offset: offset as u32,
                        len: n as u32,
                    };
                    let ghost event = Event {
                        record: transaction@,
                        offset: offset as nat,
                        len: n as nat,
                    };
                    proof {
                        assert(records_from(bytes@, offset as nat) == seq![event] + records_from(
                            bytes@,
                            (offset + n) as nat,
                        ));
                        assert(done + (seq![event] + records_from(bytes@, (offset + n) as nat))
                            =~= done.push(event) + records_from(bytes@, (offset + n) as nat));
                        assert(done.push(event).drop_last() =~= done);
                        assert(at == place(id, event));
                        assert(rest@.subrange(0, n as int) =~= bytes@.subrange(
                            offset as int,
                            offset + n,
                        ));
                    }
                    match transaction {
                        Transaction::Put(key, _) => {
                            self.index.insert(key, at);
                        },
                        Transaction::Remove(key) => {
                            self.index.remove(&key);
                        },
                    }
                    proof {
                        done = done.push(event);
                    }
                    offset = offset + n;
                },
                None => {
                    proof {
                        assert(done + Seq::<Event>::empty() =~= done);
                    }
                    break ;
                },
            }
        }
        let valid = offset as u32;
        let ghost kept = bytes@.subrange(0, valid as int);
        let ghost after = before.insert(id, kept);
        proof {
            lemma_valid_prefix(bytes@, 0);
            assert(!ids.contains(id)) by {
                if ids.contains(id) {
                    let i = choose|i: int| 0 <= i < ids.len() && ids[i] == id;
                    if i < ids.len() - 1 {
                        assert(ids[i] < ids[ids.len() - 1]);
                    }
                }
            }
            assert(!before.contains_key(id));
            assert forall|i: int| 0 <= i < ids.len() implies before[#[trigger] ids[i]] == after[ids[i]] by {
                assert(ids.contains(ids[i]));
            }
            lemma_replay_agree(ids, before, after);
            assert(ids.push(id).drop_last() =~= ids);
        }
        self.segments.push(id);
        self.writer = BufferWriter::at(valid);
        self.disk = Ghost(after);
        proof {
            let now = self.segments@;
            assert(ascending(now)) by {
                assert forall|i: int, j: int| 0 <= i < j < now.len() implies now[i] < now[j] by {
                    if j == now.len() - 1 {
                        assert(now[i] == ids[i]);
                        if i < ids.len() - 1 {
                            assert(ids[i] < ids[ids.len() - 1]);
                        }
                    } else {
                        assert(now[i] == ids[i] && now[j] == ids[j]);
                    }
                }
            }
            assert forall|other: u32| #[trigger] after.contains_key(other) <==> now.contains(
                other,
            ) by {
                if other == id {
                    assert(now[now.len() - 1] == id);
                } else {
                    if before.contains_key(other) {
                        assert(ids.contains(other));
                        let i = choose|i: int| 0 <= i < ids.len() && ids[i] == other;
                        assert(now[i] == other);
                    }
                    if now.contains(other) {
                        let i = choose|i: int| 0 <= i < now.len() && now[i] == other;
                        assert(ids[i] == other);
                    }
                }
            }
            assert forall|key: Seq<char>| #[trigger]
                self.index_view().contains_key(key) implies (record_at(
                after,
                self.index_view()[key],
            ) matches Some(Record::Put(k, _)) && k == key) by {
                let at = self.index_view()[key];
                if index0.contains_key(key) && at == index0[key] {
                    assert(record_at(before, at) is Some);
                    assert(before.contains_key(at.log_reader_id));
                    assert(record_at(after, at) == record_at(before, at));
                } else {
                    assert(kept.subrange(at.offset as int, at.offset + at.len) =~= bytes@.subrange(
                        at.offset as int,
                        at.offset + at.len,
                    ));
                }
            }
        }
        Ok(valid)
    }

    /// Why compaction would fail, if it would: no id is left for the new
    /// segment, or the records to move are longer than 32-bit offsets reach.
    pub open spec fn compaction_error(&self) -> Option<KvsError> {
        if self.next_segment() > u32::MAX {
            Some(KvsError::SegmentsExhausted)
        } else if self.segment_ids().len() > 0 && moved_len(
            self.index_view(),
            self.key_order(),
            self.segment_ids().last(),
            self.key_order().len(),
        ) > u32::MAX {
            Some(KvsError::TooLarge)
        } else {
            None
        }
    }

    /// The segments that compaction leaves: the active one and the new one.
    pub open spec fn compacted_ids(&self) -> Seq<u32> {
        if self.segment_ids().len() == 0 {
            seq![0u32]
        } else {
            seq![self.segment_ids().last(), self.next_segment() as u32]
        }
    }

    /// What the segments hold after compaction.
    pub open spec fn compacted_segments(&self) -> Disk {
        if self.segment_ids().len() == 0 {
            Map::<u32, Seq<u8>>::empty().insert(0u32, Seq::empty())
        } else {
            compacted_disk(
                self.disk(),
                self.index_view(),
                self.key_order(),
                self.segment_ids().last(),
                self.next_segment() as u32,
            )
        }
    }

    /// The index after compaction.
    pub open spec fn compacted_index(&self) -> IndexView {
        if self.segment_ids().len() == 0 {
            self.index_view()
        } else {
            compacted(
                self.index_view(),
                self.index_view(),
                self.key_order(),
                self.segment_ids().last(),
                self.next_segment() as u32,
                self.key_order().len(),
            )
        }
    }

    /// What `plan` asks the caller to do is what compaction asks for.
    pub open spec fn plans(&self, plan: Compaction) -> bool {
        &&& plan.segment == self.next_segment()
        &&& plan.removed@ == if self.segment_ids().len() == 0 {
            Seq::<u32>::empty()
        } else {
            self.segment_ids().drop_last()
        }
        &&& plan.moves@ == if self.segment_ids().len() == 0 {
            Seq::<Move>::empty()
        } else {
            planned_moves(
                self.index_view(),
                self.key_order(),
                self.segment_ids().last(),
                self.key_order().len(),
            )
        }
    }

    /// What compaction would have the caller do, with nothing changed.
    pub fn plan_compaction(&self) -> (out: Result<Compaction, KvsError>)
        requires
            self.wf(),
        ensures
            out is Ok <==> self.compaction_error() is None,
            match out {
                Ok(plan) => self.plans(plan),
                Err(e) => Some(e) == self.compaction_error(),
            },
    {
        let active: u32 = match self.max_reader_id() {
            None => {
                return Ok(Compaction { segment: 0, moves: Vec::new(), removed: Vec::new() });
            },
            Some(last) => last,
        };
        if active == u32::MAX {
            return Err(KvsError::SegmentsExhausted);
        }
        let ghost index = self.index@;
        let ghost keys = self.index.key_seq();
        let mut moves: Vec<Move> = Vec::new();
        let mut total: u32 = 0;
        let mut i: usize = 0;
        while i < self.index.len()
            invariant
                i <= keys.len(),
                self.index.key_seq() == keys,
                self.index@ == index,
                self.index.wf(),
                total == moved_len(index, keys, active, i as nat),
                moves@ == planned_moves(index, keys, active, i as nat),
                self.segment_ids().len() > 0,
                self.segment_ids().last() == active,
                active < u32::MAX,
                self.index_view() == index,
                self.key_order() == keys,
            decreases keys.len() - i,
        {
            let key = self.index.key(i);
            assert(index.contains_key(keys[i as int]));
            match self.index.get(key) {
                Some(at) => {
                    if at.log_reader_id != active {
                        if at.len > u32::MAX - total {
                            proof {
                                assert(crate::compaction::moves(index, active, keys[i as int]));
                                assert(moved_len(index, keys, active, (i + 1) as nat) == total
                                    + at.len);
                                lemma_moved_len_grows(
                                    index,
                                    keys,
                                    active,
                                    (i + 1) as nat,
                                    keys.len(),
                                );
                            }
                            return Err(KvsError::TooLarge);
                        }
                        moves.push(Move { from: at, to: total });
                        total = total + at.len;
                    }
                },
                None => {},
            }
            i = i + 1;
        }
        let mut removed: Vec<u32> = Vec::new();
        let mut j: usize = 0;
        while j + 1 < self.segments.len()
            invariant
                j + 1 <= self.segments.len(),
                removed@ == self.segments@.subrange(0, j as int),
            decreases self.segments.len() - j,
        {
            removed.push(self.segments[j]);
            j = j + 1;
            assert(removed@ =~= self.segments@.subrange(0, j as int));
        }
        assert(removed@ =~= self.segments@.drop_last());
        Ok(Compaction { segment: active + 1, moves, removed })
    }

    /// Moves every record that the index points at outside the active
    /// segment into a new segment, which becomes the active one, and drops
    /// the segments below the one that was active. The answers of the store
    /// do not change. Gives what the caller has to do to the files. On an
    /// error nothing is changed.
    pub fn compress_by_index(&mut self) -> (out: Result<Compaction, KvsError>)
        requires
            old(self).wf(),
        ensures
            out is Ok <==> old(self).compaction_error() is None,
            match out {
                Ok(plan) => {
                    &&& final(self).wf()
                    &&& old(self).plans(plan)
                    &&& final(self).segment_ids() == old(self).compacted_ids()
                    &&& final(self).segment_ids().len() <= 2
                    &&& final(self).disk() == old(self).compacted_segments()
                    &&& final(self).index_view() == old(self).compacted_index()
                    &&& final(self).key_order() == old(self).key_order()
                    &&& final(self).contents() == old(self).contents()
                },
                Err(e) => Some(e) == old(self).compaction_error() && *final(self) == *old(self),
            },
    {
        let plan = match self.plan_compaction() {
            Ok(plan) => plan,
            Err(e) => {
                return Err(e);
            },
        };
        let active: u32 = match self.max_reader_id() {
            None => {
                proof {
                    assert forall|key: Seq<char>| !self.index_view().contains_key(key) by {
                        if self.index_view().contains_key(key) {
                            self.lemma_entry_has_segment(key);
                        }
                    }
                    assert(self.disk() =~= Map::<u32, Seq<u8>>::empty());
                }
                let ghost contents = self.contents();
                match self.rotate() {
                    Ok(_) => {
                        assert(self.segment_ids() =~= seq![0u32]);
                        assert(self.contents() =~= contents);
                        return Ok(plan);
                    },
                    Err(e) => {
                        return Err(e);
                    },
                }
            },
            Some(last) => last,
        };
        let dest: u32 = active + 1;
        let ghost index = self.index@;
        let ghost keys = self.index.key_seq();
        let ghost ids = self.segments@;
        let ghost before = self.disk@;
        let ghost contents = self.contents();
        let ghost n = keys.len();
        proof {
            assert(distinct(keys));
            assert(entries_stand(index, before));
        }
        let mut total: u32 = 0;
        let mut i: usize = 0;
        while i < self.index.len()
            invariant
                i <= n,
                n == keys.len(),
                distinct(keys),
                forall|j: int| 0 <= j < keys.len() ==> #[trigger] index.contains_key(keys[j]),
                self.index.key_seq() == keys,
                self.index.wf(),
                self.index@ == compacted(index, index, keys, active, dest, i as nat),
                total == moved_len(index, keys, active, i as nat),
                moved_len(index, keys, active, n) <= u32::MAX,
                self.segments@ == ids,
                self.disk@ == before,
                self.writer == old(self).writer,
            decreases n - i,
        {
            let key = self.index.key(i).clone();
            proof {
                lemma_compacted_keeps(index, index, keys, active, dest, i as nat, keys[i as int]);
                lemma_moved_len_grows(index, keys, active, (i + 1) as nat, n);
                assert(index.contains_key(keys[i as int]));
            }
            match self.index.get(&key) {
                Some(at) => {
                    if at.log_reader_id != active {
                        let landed = TransactionPosition {
                            log_reader_id: dest,
                            offset: total,
                            len: at.len,
                        };
                        assert(landed == landing(index, keys, active, dest, i as nat));
                        self.index.insert(key, landed);
                        total = total + at.len;
                    }
                },
                None => {},
            }
            i = i + 1;
        }
        let ghost after = compacted_disk(before, index, keys, active, dest);
        let mut segments: Vec<u32> = Vec::new();
        segments.push(active);
        segments.push(dest);
        self.segments = segments;
        self.writer = BufferWriter::at(total);
        self.disk = Ghost(after);
        proof {
            let now = self.segments@;
            assert(now =~= seq![active, dest]);
            assert(ids.contains(ids[ids.len() - 1]));
            assert(before.contains_key(active));
            lemma_copied_records(before, index, keys, active, n);
            lemma_compaction_replay(ids, before, keys, dest);
            lemma_compacted_dom(index, keys, active, dest, n);
            assert forall|id: u32| #[trigger] after.contains_key(id) <==> now.contains(id) by {
                if id == active {
                    assert(now[0] == active);
                }
                if id == dest {
                    assert(now[1] == dest);
                }
            }
            assert forall|key: Seq<char>| #[trigger]
                self.index_view().contains_key(key) implies record_at(
                after,
                self.index_view()[key],
            ) == record_at(before, index[key]) by {
                assert(index.dom().contains(key));
                assert(index.contains_key(key));
                assert(record_at(before, index[key]) is Some);
                if moves(index, active, key) {
                    assert(keys.contains(key));
                    let turn = choose|turn: int| 0 <= turn < keys.len() && keys[turn] == key;
                    lemma_compacted_moves(index, index, keys, active, dest, n, turn as nat);
                    lemma_copied_slice(before, index, keys, active, n, turn as nat);
                    lemma_moved_len_grows(index, keys, active, turn as nat, n);
                } else {
                    lemma_compacted_keeps(index, index, keys, active, dest, n, key);
                }
            }
            assert(self.contents() =~= contents);
        }
        Ok(plan)
    }

    /// Reading finds the value of a key: the bytes at the place that the
    /// index gives for a key are a `Put` of that key, and the value in it is
    /// what the store holds for the key.
    pub proof fn lemma_read_gives_contents(&self, key: Seq<char>)
        requires
            self.wf(),
            self.index_view().contains_key(key),
        ensures
            self.contents().contains_key(key),
            self.disk().contains_key(self.index_view()[key].log_reader_id),
            self.index_view()[key].offset + self.index_view()[key].len
                <= self.disk()[self.index_view()[key].log_reader_id].len(),
            parse_record(crate::compaction::slice_at(self.disk(), self.index_view()[key])) == Some(
                Record::Put(key, self.contents()[key]),
            ),
    {
        let at = self.index_view()[key];
        assert(record_at(self.disk(), at) is Some);
    }

    /// Recovery equivalence: a store that was rebuilt by loading the segments
    /// of this one, in ascending order of id, has the same index and gives
    /// the same answer for every key. Loading keeps of each segment what
    /// stands before the first place where no whole record stands, which for
    /// the segments of a store is all of it.
    pub proof fn lemma_recovery_equivalence(&self, reopened: KVStore)
        requires
            self.wf(),
            reopened.wf(),
            reopened.segment_ids() == self.segment_ids(),
            forall|id: u32| #[trigger]
                self.disk().contains_key(id) ==> reopened.disk()[id] == self.disk()[id].subrange(
                    0,
                    valid_end(self.disk()[id], 0) as int,
                ),
        ensures
            reopened.disk() == self.disk(),
            reopened.index_view() == self.index_view(),
            reopened.contents() == self.contents(),
    {
        assert forall|id: u32| #[trigger] self.disk().contains_key(id) implies reopened.disk()[id]
            == self.disk()[id] by {
            assert(self.disk()[id].subrange(0, self.disk()[id].len() as int) =~= self.disk()[id]);
        }
        assert(reopened.disk() =~= self.disk());
        assert(reopened.contents() =~= self.contents());
    }

    /// The walk visits every key of the index, each once, and nothing else.
    pub proof fn lemma_key_order(&self)
        requires
            self.wf(),
        ensures
            distinct(self.key_order()),
            forall|key: Seq<char>|
                self.index_view().contains_key(key) <==> self.key_order().contains(key),
    {
        assert forall|key: Seq<char>| self.key_order().contains(key) implies self.index_view().contains_key(
            key,
        ) by {
            let i = choose|i: int| 0 <= i < self.key_order().len() && self.key_order()[i] == key;
            assert(self.index_view().contains_key(self.key_order()[i]));
        }
    }

    /// A key with an entry has a segment to stand in.
    pub proof fn lemma_entry_has_segment(&self, key: Seq<char>)
        requires
            self.wf(),
            self.index_view().contains_key(key),
        ensures
            self.segment_ids().len() > 0,
            self.segment_ids().contains(self.index_view()[key].log_reader_id),
    {
        let at = self.index_view()[key];
        assert(record_at(self.disk(), at) is Some);
        assert(self.disk().contains_key(at.log_reader_id));
    }
}

} // verus!
