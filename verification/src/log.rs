//! The log as contracts see it: segments of bytes, the records that stand in
//! them, and the index that replaying them gives.

use vstd::prelude::*;
use crate::codec::{
    document, first_name, lemma_frame_of_document, second_name, text_element, MAX_DOCUMENT_LEN,
};
use crate::record::{
    first_record, lemma_first_record_prefix, parse_record, remove_name, set_name, Record,
};

verus! {

/// Where the latest live record of a key stands.
#[derive(Clone, Copy, Debug, PartialEq, Eq, Structural)]
pub struct TransactionPosition {
    /// The id of the segment.
    pub log_reader_id: u32,
    /// The record's first byte, counted from the segment's start.
    pub offset: u32,
    /// The record's length in bytes.
    pub len: u32,
}

/// The index as contracts see it.
pub type IndexView = Map<Seq<char>, TransactionPosition>;

/// The segments as contracts see them: the bytes of each, by id.
pub type Disk = Map<u32, Seq<u8>>;

/// A record found in a segment, with its place.
pub struct Event {
    /// The record.
    pub record: Record,
    /// Its first byte, counted from the segment's start.
    pub offset: nat,
    /// Its length in bytes.
    pub len: nat,
}

/// The records that stand in `bytes` from `start` on, one after the other, up
/// to the first place where no whole record stands.
pub open spec fn records_from(bytes: Seq<u8>, start: nat) -> Seq<Event>
    decreases bytes.len() - start,
{
    if start >= bytes.len() {
        Seq::empty()
    } else {
        match first_record(bytes.subrange(start as int, bytes.len() as int)) {
            Some((record, n)) => if n > 0 && start + n <= bytes.len() {
                seq![Event { record, offset: start, len: n }] + records_from(bytes, start + n)
            } else {
                Seq::empty()
            },
            None => Seq::empty(),
        }
    }
}

/// Where the records that stand in `bytes` from `start` on end.
pub open spec fn valid_end(bytes: Seq<u8>, start: nat) -> nat
    decreases bytes.len() - start,
{
    if start >= bytes.len() {
        start
    } else {
        match first_record(bytes.subrange(start as int, bytes.len() as int)) {
            Some((record, n)) => if n > 0 && start + n <= bytes.len() {
                valid_end(bytes, start + n)
            } else {
                start
            },
            None => start,
        }
    }
}

/// The records of a segment.
pub open spec fn records(bytes: Seq<u8>) -> Seq<Event> {
    records_from(bytes, 0)
}

/// A segment is clean when its records fill it to the last byte.
pub open spec fn clean(bytes: Seq<u8>) -> bool {
    valid_end(bytes, 0) == bytes.len()
}

/// The place of an event of segment `id`.
pub open spec fn place(id: u32, event: Event) -> TransactionPosition {
    TransactionPosition { log_reader_id: id, offset: event.offset as u32, len: event.len as u32 }
}

/// The index after one more record: a `Put` points its key at the record, a
/// `Remove` takes its key out.
pub open spec fn apply(index: IndexView, id: u32, event: Event) -> IndexView {
    match event.record {
        Record::Put(key, _) => index.insert(key, place(id, event)),
        Record::Remove(key) => index.remove(key),
    }
}

/// The index after the events of segment `id`, in their order.
pub open spec fn apply_all(index: IndexView, id: u32, events: Seq<Event>) -> IndexView
    decreases events.len(),
{
    if events.len() == 0 {
        index
    } else {
        apply(apply_all(index, id, events.drop_last()), id, events.last())
    }
}

/// The order in which the keys of the index are walked, after one more
/// record: a key that a `Put` brings in comes last, a key that a `Remove`
/// takes out leaves, and the others keep their turn.
pub open spec fn walk_after(keys: Seq<Seq<char>>, index: IndexView, event: Event) -> Seq<Seq<char>> {
    match event.record {
        Record::Put(key, _) => if index.contains_key(key) {
            keys
        } else {
            keys.push(key)
        },
        Record::Remove(key) => if index.contains_key(key) {
            keys.remove(keys.index_of(key))
        } else {
            keys
        },
    }
}

/// The order in which the keys of the index are walked, after the events of
/// segment `id`.
pub open spec fn walk_all(
    keys: Seq<Seq<char>>,
    index: IndexView,
    id: u32,
    events: Seq<Event>,
) -> Seq<Seq<char>>
    decreases events.len(),
{
    if events.len() == 0 {
        keys
    } else {
        walk_after(
            walk_all(keys, index, id, events.drop_last()),
            apply_all(index, id, events.drop_last()),
            events.last(),
        )
    }
}

/// The index after replaying the segments `ids`, in their order, each in
/// byte order.
pub open spec fn replay(ids: Seq<u32>, disk: Disk) -> IndexView
    decreases ids.len(),
{
    if ids.len() == 0 {
        Map::empty()
    } else {
        apply_all(replay(ids.drop_last(), disk), ids.last(), records(disk[ids.last()]))
    }
}

/// The record that stands at a place, if one stands there.
pub open spec fn record_at(disk: Disk, at: TransactionPosition) -> Option<Record> {
    if disk.contains_key(at.log_reader_id) && at.offset + at.len <= disk[at.log_reader_id].len() {
        parse_record(
            disk[at.log_reader_id].subrange(at.offset as int, at.offset + at.len),
        )
    } else {
        None
    }
}

/// Ids in strictly ascending order.
pub open spec fn ascending(ids: Seq<u32>) -> bool {
    forall|i: int, j: int| 0 <= i < j < ids.len() ==> ids[i] < ids[j]
}

/// A whole record followed by anything is read from the front, whole.
pub proof fn lemma_parsed_is_framed(doc: Seq<u8>, rest: Seq<u8>)
    requires
        parse_record(doc) is Some,
    ensures
        first_record(doc + rest) == Some((parse_record(doc)->Some_0, doc.len())),
        doc.len() >= 12,
{
    reveal(first_record);
    vstd::bytes::lemma_auto_spec_u32_to_from_le_bytes();
    match crate::codec::parse_pair_document(doc, set_name()) {
        Some((key, value)) => {
            let body = seq![0x04u8] + set_name() + seq![0u8] + document(
                text_element(first_name(), key) + text_element(second_name(), value),
            );
            assert(doc == document(body));
            lemma_frame_of_document(body, rest);
        },
        None => {
            let key = crate::codec::parse_text_document(doc, remove_name())->Some_0;
            let body = text_element(remove_name(), key);
            assert(doc == document(body));
            lemma_frame_of_document(body, rest);
        },
    }
}

/// The record read from the front stands in the bytes that its length counts.
pub proof fn lemma_first_record_bounds(bytes: Seq<u8>)
    requires
        first_record(bytes) is Some,
    ensures
        5 <= first_record(bytes)->Some_0.1 <= bytes.len(),
        first_record(bytes)->Some_0.1 <= MAX_DOCUMENT_LEN,
        parse_record(bytes.subrange(0, first_record(bytes)->Some_0.1 as int)) == Some(
            first_record(bytes)->Some_0.0,
        ),
{
    reveal(first_record);
}

/// Appending a whole record to a segment whose records end at its last byte
/// adds that record to the segment's records, and the records still end at
/// the last byte.
pub proof fn lemma_records_append_from(bytes: Seq<u8>, doc: Seq<u8>, start: nat)
    requires
        start <= bytes.len(),
        valid_end(bytes, start) == bytes.len(),
        parse_record(doc) is Some,
    ensures
        records_from(bytes + doc, start) == records_from(bytes, start).push(
            Event { record: parse_record(doc)->Some_0, offset: bytes.len(), len: doc.len() },
        ),
        valid_end(bytes + doc, start) == bytes.len() + doc.len(),
    decreases bytes.len() - start,
{
    let all = bytes + doc;
    let record = parse_record(doc)->Some_0;
    lemma_parsed_is_framed(doc, Seq::empty());
    assert(doc + Seq::<u8>::empty() =~= doc);
    if start == bytes.len() {
        assert(all.subrange(start as int, all.len() as int) =~= doc);
        assert(records_from(all, start + doc.len()) == Seq::<Event>::empty());
        assert(valid_end(all, start + doc.len()) == start + doc.len());
        assert(valid_end(all, start) == valid_end(all, start + doc.len()));
        assert(records_from(bytes, start) == Seq::<Event>::empty());
        assert(records_from(all, start) =~= Seq::<Event>::empty().push(
            Event { record, offset: bytes.len(), len: doc.len() },
        ));
    } else {
        let tail = bytes.subrange(start as int, bytes.len() as int);
        assert(first_record(tail) is Some);
        let n = first_record(tail)->Some_0.1;
        lemma_first_record_bounds(tail);
        lemma_first_record_prefix(tail, doc);
        assert(all.subrange(start as int, all.len() as int) =~= tail + doc);
        lemma_records_append_from(bytes, doc, start + n);
        assert(valid_end(bytes, start) == valid_end(bytes, start + n));
        assert(valid_end(all, start) == valid_end(all, start + n));
        assert(records_from(all, start) =~= records_from(bytes, start).push(
            Event { record, offset: bytes.len(), len: doc.len() },
        ));
    }
}

/// Appending a whole record to a clean segment.
pub proof fn lemma_records_append(bytes: Seq<u8>, doc: Seq<u8>)
    requires
        clean(bytes),
        parse_record(doc) is Some,
    ensures
        records(bytes + doc) == records(bytes).push(
            Event { record: parse_record(doc)->Some_0, offset: bytes.len(), len: doc.len() },
        ),
        clean(bytes + doc),
{
    lemma_records_append_from(bytes, doc, 0);
}

/// An empty segment holds no record and is clean.
pub proof fn lemma_records_empty()
    ensures
        records(Seq::<u8>::empty()) == Seq::<Event>::empty(),
        clean(Seq::<u8>::empty()),
{
}

/// Replaying depends only on the segments that are replayed.
pub proof fn lemma_replay_agree(ids: Seq<u32>, one: Disk, other: Disk)
    requires
        forall|i: int| 0 <= i < ids.len() ==> one[#[trigger] ids[i]] == other[ids[i]],
    ensures
        replay(ids, one) == replay(ids, other),
    decreases ids.len(),
{
    if ids.len() > 0 {
        let front = ids.drop_last();
        assert forall|i: int| 0 <= i < front.len() implies one[#[trigger] front[i]] == other[front[i]] by {
            assert(front[i] == ids[i]);
        }
        lemma_replay_agree(front, one, other);
        assert(one[ids[ids.len() - 1]] == other[ids[ids.len() - 1]]);
    }
}

/// A further segment that is empty changes nothing.
pub proof fn lemma_replay_push_empty(ids: Seq<u32>, disk: Disk, id: u32)
    requires
        disk[id] == Seq::<u8>::empty(),
    ensures
        replay(ids.push(id), disk) == replay(ids, disk),
{
    assert(ids.push(id).drop_last() =~= ids);
}

/// Appending a whole record to the last segment, which is clean, applies
/// that record to the index.
pub proof fn lemma_replay_append(ids: Seq<u32>, disk: Disk, doc: Seq<u8>)
    requires
        ids.len() > 0,
        ascending(ids),
        clean(disk[ids.last()]),
        parse_record(doc) is Some,
    ensures
        replay(ids, disk.insert(ids.last(), disk[ids.last()] + doc)) == apply(
            replay(ids, disk),
            ids.last(),
            Event {
                record: parse_record(doc)->Some_0,
                offset: disk[ids.last()].len(),
                len: doc.len(),
            },
        ),
        clean(disk[ids.last()] + doc),
{
    let last = ids.last();
    let after = disk.insert(last, disk[last] + doc);
    let front = ids.drop_last();
    assert forall|i: int| 0 <= i < front.len() implies disk[#[trigger] front[i]] == after[front[i]] by {
        assert(front[i] == ids[i]);
        assert(ids[i] < ids[ids.len() - 1]);
    }
    lemma_replay_agree(front, disk, after);
    lemma_records_append(disk[last], doc);
    let event = Event { record: parse_record(doc)->Some_0, offset: disk[last].len(), len: doc.len() };
    assert(records(after[last]).drop_last() =~= records(disk[last]));
}

/// What stands at a place is not changed by bytes appended to a segment.
pub proof fn lemma_record_at_append(disk: Disk, id: u32, doc: Seq<u8>, at: TransactionPosition)
    requires
        disk.contains_key(id),
        record_at(disk, at) is Some,
    ensures
        record_at(disk.insert(id, disk[id] + doc), at) == record_at(disk, at),
{
    if at.log_reader_id == id {
        assert((disk[id] + doc).subrange(at.offset as int, at.offset + at.len) =~= disk[id].subrange(
            at.offset as int,
            at.offset + at.len,
        ));
    }
}

/// The record appended to a segment stands at the segment's former end.
pub proof fn lemma_record_at_end(disk: Disk, id: u32, doc: Seq<u8>)
    requires
        disk.contains_key(id),
        disk[id].len() + doc.len() <= u32::MAX,
    ensures
        record_at(
            disk.insert(id, disk[id] + doc),
            TransactionPosition {
                log_reader_id: id,
                offset: disk[id].len() as u32,
                len: doc.len() as u32,
            },
        ) == parse_record(doc),
{
    let n = disk[id].len() as int;
    assert((disk[id] + doc).subrange(n, n + doc.len()) =~= doc);
}

/// The record read from the front is read from any prefix that holds it.
pub proof fn lemma_first_record_exact(bytes: Seq<u8>, m: int)
    requires
        first_record(bytes) is Some,
        first_record(bytes)->Some_0.1 <= m <= bytes.len(),
    ensures
        first_record(bytes.subrange(0, m)) == first_record(bytes),
{
    reveal(first_record);
    let n = first_record(bytes)->Some_0.1 as int;
    let front = bytes.subrange(0, m);
    assert(front.subrange(0, 4) =~= bytes.subrange(0, 4));
    assert(front.subrange(0, n) =~= bytes.subrange(0, n));
}

/// Cutting a segment where its records end keeps the records, and the
/// records fill what is left.
pub proof fn lemma_valid_prefix(bytes: Seq<u8>, start: nat)
    requires
        start <= bytes.len(),
    ensures
        start <= valid_end(bytes, start) <= bytes.len(),
        records_from(bytes.subrange(0, valid_end(bytes, start) as int), start) == records_from(
            bytes,
            start,
        ),
        valid_end(bytes.subrange(0, valid_end(bytes, start) as int), start) == valid_end(
            bytes,
            start,
        ),
    decreases bytes.len() - start,
{
    let end = valid_end(bytes, start);
    if start < bytes.len() {
        let tail = bytes.subrange(start as int, bytes.len() as int);
        match first_record(tail) {
            Some((record, n)) => {
                lemma_first_record_bounds(tail);
                lemma_valid_prefix(bytes, start + n);
                assert(end == valid_end(bytes, start + n));
                let front = bytes.subrange(0, end as int);
                lemma_first_record_exact(tail, end - start);
                assert(front.subrange(start as int, front.len() as int) =~= tail.subrange(
                    0,
                    end - start,
                ));
                assert(records_from(front, start) == seq![
                    Event { record, offset: start, len: n },
                ] + records_from(front, start + n));
                assert(valid_end(front, start) == valid_end(front, start + n));
            },
            None => {
                assert(end == start);
            },
        }
    }
}

} // verus!
