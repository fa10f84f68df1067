//! What compaction does, as contracts see it: which records move, where they
//! land, and why replaying the segments that are left gives the index back.

use vstd::prelude::*;
use crate::log::{
    apply_all, ascending, clean, lemma_records_append, lemma_records_empty, place,
    record_at, records, replay, Disk, Event, IndexView, TransactionPosition,
};
use crate::record::{parse_record, Record};

verus! {

/// Whether the entry of `key` stands outside the segment `active`, so that
/// compaction moves its record.
pub open spec fn moves(index: IndexView, active: u32, key: Seq<char>) -> bool {
    index[key].log_reader_id != active
}

/// The bytes of the record that an entry points at.
pub open spec fn slice_at(disk: Disk, at: TransactionPosition) -> Seq<u8> {
    disk[at.log_reader_id].subrange(at.offset as int, at.offset + at.len)
}

/// The length of what the first `i` keys of the walk move.
pub open spec fn moved_len(index: IndexView, keys: Seq<Seq<char>>, active: u32, i: nat) -> nat
    decreases i,
{
    if i == 0 {
        0
    } else {
        moved_len(index, keys, active, (i - 1) as nat) + if moves(index, active, keys[i - 1]) {
            index[keys[i - 1]].len as nat
        } else {
            0
        }
    }
}

/// The bytes that the first `i` keys of the walk move, one record after the
/// other.
pub open spec fn copied(
    disk: Disk,
    index: IndexView,
    keys: Seq<Seq<char>>,
    active: u32,
    i: nat,
) -> Seq<u8>
    decreases i,
{
    if i == 0 {
        Seq::empty()
    } else {
        copied(disk, index, keys, active, (i - 1) as nat) + if moves(index, active, keys[i - 1]) {
            slice_at(disk, index[keys[i - 1]])
        } else {
            Seq::empty()
        }
    }
}

/// Where the record of the key whose turn is `i` lands in the segment `dest`.
pub open spec fn landing(
    index: IndexView,
    keys: Seq<Seq<char>>,
    active: u32,
    dest: u32,
    i: nat,
) -> TransactionPosition {
    TransactionPosition {
        log_reader_id: dest,
        offset: moved_len(index, keys, active, i) as u32,
        len: index[keys[i as int]].len,
    }
}

/// `base` after the first `i` keys of the walk were dealt with: each key
/// that moves points at its landing place.
pub open spec fn compacted(
    base: IndexView,
    index: IndexView,
    keys: Seq<Seq<char>>,
    active: u32,
    dest: u32,
    i: nat,
) -> IndexView
    decreases i,
{
    if i == 0 {
        base
    } else {
        let before = compacted(base, index, keys, active, dest, (i - 1) as nat);
        if moves(index, active, keys[i - 1]) {
            before.insert(keys[i - 1], landing(index, keys, active, dest, (i - 1) as nat))
        } else {
            before
        }
    }
}

/// The records that the first `i` keys of the walk move, as they stand in
/// the segment they land in.
pub open spec fn landed(
    disk: Disk,
    index: IndexView,
    keys: Seq<Seq<char>>,
    active: u32,
    i: nat,
) -> Seq<Event>
    decreases i,
{
    if i == 0 {
        Seq::empty()
    } else {
        let before = landed(disk, index, keys, active, (i - 1) as nat);
        if moves(index, active, keys[i - 1]) {
            before.push(
                Event {
                    record: parse_record(slice_at(disk, index[keys[i - 1]]))->Some_0,
                    offset: moved_len(index, keys, active, (i - 1) as nat),
                    len: index[keys[i - 1]].len as nat,
                },
            )
        } else {
            before
        }
    }
}

/// Keys that are all different.
pub open spec fn distinct(keys: Seq<Seq<char>>) -> bool {
    forall|i: int, j: int| 0 <= i < j < keys.len() ==> keys[i] != keys[j]
}

/// Every entry points at a `Put` of its own key.
pub open spec fn entries_stand(index: IndexView, disk: Disk) -> bool {
    forall|key: Seq<char>| #[trigger]
        index.contains_key(key) ==> (record_at(disk, index[key]) matches Some(Record::Put(k, _))
            && k == key)
}

/// What is moved grows with the walk.
pub proof fn lemma_moved_len_grows(
    index: IndexView,
    keys: Seq<Seq<char>>,
    active: u32,
    i: nat,
    j: nat,
)
    requires
        i <= j,
    ensures
        moved_len(index, keys, active, i) <= moved_len(index, keys, active, j),
    decreases j,
{
    if i < j {
        lemma_moved_len_grows(index, keys, active, i, (j - 1) as nat);
    }
}

/// The moved bytes are the moved records, one after the other, and nothing
/// else.
pub proof fn lemma_copied_records(
    disk: Disk,
    index: IndexView,
    keys: Seq<Seq<char>>,
    active: u32,
    i: nat,
)
    requires
        i <= keys.len(),
        entries_stand(index, disk),
        forall|j: int| 0 <= j < keys.len() ==> #[trigger] index.contains_key(keys[j]),
    ensures
        copied(disk, index, keys, active, i).len() == moved_len(index, keys, active, i),
        records(copied(disk, index, keys, active, i)) == landed(disk, index, keys, active, i),
        clean(copied(disk, index, keys, active, i)),
    decreases i,
{
    if i == 0 {
        lemma_records_empty();
    } else {
        let before = (i - 1) as nat;
        lemma_copied_records(disk, index, keys, active, before);
        let key = keys[i - 1];
        assert(index.contains_key(key));
        if moves(index, active, key) {
            let at = index[key];
            assert(record_at(disk, at) is Some);
            lemma_records_append(copied(disk, index, keys, active, before), slice_at(disk, at));
        } else {
            assert(copied(disk, index, keys, active, i) =~= copied(
                disk,
                index,
                keys,
                active,
                before,
            ));
        }
    }
}

/// Replaying the moved records does to an index what the walk does to it.
pub proof fn lemma_landed_applies(
    base: IndexView,
    disk: Disk,
    index: IndexView,
    keys: Seq<Seq<char>>,
    active: u32,
    dest: u32,
    i: nat,
)
    requires
        i <= keys.len(),
        entries_stand(index, disk),
        forall|j: int| 0 <= j < keys.len() ==> #[trigger] index.contains_key(keys[j]),
    ensures
        apply_all(base, dest, landed(disk, index, keys, active, i)) == compacted(
            base,
            index,
            keys,
            active,
            dest,
            i,
        ),
    decreases i,
{
    if i > 0 {
        let before = (i - 1) as nat;
        lemma_landed_applies(base, disk, index, keys, active, dest, before);
        let key = keys[i - 1];
        assert(index.contains_key(key));
        if moves(index, active, key) {
            let events = landed(disk, index, keys, active, i);
            assert(events.drop_last() =~= landed(disk, index, keys, active, before));
            assert(record_at(disk, index[key]) is Some);
        }
    }
}

/// A key whose turn has not come, or that does not move, keeps its entry.
pub proof fn lemma_compacted_keeps(
    base: IndexView,
    index: IndexView,
    keys: Seq<Seq<char>>,
    active: u32,
    dest: u32,
    i: nat,
    key: Seq<char>,
)
    requires
        i <= keys.len(),
        forall|j: int| 0 <= j < i ==> keys[j] != key || !moves(index, active, keys[j]),
    ensures
        compacted(base, index, keys, active, dest, i).contains_key(key) == base.contains_key(key),
        compacted(base, index, keys, active, dest, i)[key] == base[key],
    decreases i,
{
    if i > 0 {
        lemma_compacted_keeps(base, index, keys, active, dest, (i - 1) as nat, key);
    }
}

/// A key that moves points at its landing place, whatever it pointed at.
pub proof fn lemma_compacted_moves(
    base: IndexView,
    index: IndexView,
    keys: Seq<Seq<char>>,
    active: u32,
    dest: u32,
    i: nat,
    turn: nat,
)
    requires
        turn < i <= keys.len(),
        distinct(keys),
        moves(index, active, keys[turn as int]),
    ensures
        compacted(base, index, keys, active, dest, i).contains_key(keys[turn as int]),
        compacted(base, index, keys, active, dest, i)[keys[turn as int]] == landing(
            index,
            keys,
            active,
            dest,
            turn,
        ),
    decreases i,
{
    if turn + 1 < i {
        lemma_compacted_moves(base, index, keys, active, dest, (i - 1) as nat, turn);
        assert(keys[turn as int] != keys[i - 1]);
    }
}

/// The keys of the index do not change in the walk.
pub proof fn lemma_compacted_dom(
    index: IndexView,
    keys: Seq<Seq<char>>,
    active: u32,
    dest: u32,
    i: nat,
)
    requires
        i <= keys.len(),
        forall|j: int| 0 <= j < keys.len() ==> #[trigger] index.contains_key(keys[j]),
    ensures
        compacted(index, index, keys, active, dest, i).dom() =~= index.dom(),
    decreases i,
{
    if i > 0 {
        lemma_compacted_dom(index, keys, active, dest, (i - 1) as nat);
        assert(index.contains_key(keys[i - 1]));
    }
}

/// A moved record stands, whole, at its landing place among the moved bytes.
pub proof fn lemma_copied_slice(
    disk: Disk,
    index: IndexView,
    keys: Seq<Seq<char>>,
    active: u32,
    i: nat,
    turn: nat,
)
    requires
        turn < i <= keys.len(),
        moves(index, active, keys[turn as int]),
        entries_stand(index, disk),
        forall|j: int| 0 <= j < keys.len() ==> #[trigger] index.contains_key(keys[j]),
    ensures
        moved_len(index, keys, active, turn) + index[keys[turn as int]].len <= copied(
            disk,
            index,
            keys,
            active,
            i,
        ).len(),
        copied(disk, index, keys, active, i).subrange(
            moved_len(index, keys, active, turn) as int,
            moved_len(index, keys, active, turn) + index[keys[turn as int]].len,
        ) == slice_at(disk, index[keys[turn as int]]),
    decreases i,
{
    let before = (i - 1) as nat;
    let at = index[keys[turn as int]];
    assert(index.contains_key(keys[turn as int]));
    assert(record_at(disk, at) is Some);
    lemma_copied_records(disk, index, keys, active, turn);
    lemma_copied_records(disk, index, keys, active, before);
    if turn + 1 < i {
        lemma_copied_slice(disk, index, keys, active, before, turn);
        let start = moved_len(index, keys, active, turn) as int;
        assert(copied(disk, index, keys, active, i).subrange(start, start + at.len) =~= copied(
            disk,
            index,
            keys,
            active,
            before,
        ).subrange(start, start + at.len));
    } else {
        let start = moved_len(index, keys, active, turn) as int;
        assert(copied(disk, index, keys, active, i).subrange(start, start + at.len) =~= slice_at(
            disk,
            at,
        ));
    }
}

/// Whether one of the events is about `key`.
pub open spec fn touches(events: Seq<Event>, key: Seq<char>) -> bool {
    exists|j: int| 0 <= j < events.len() && #[trigger] events[j].record.key() == key
}

/// Events that are not about a key leave its entry as it was.
pub proof fn lemma_apply_all_untouched(
    base: IndexView,
    id: u32,
    events: Seq<Event>,
    key: Seq<char>,
)
    requires
        !touches(events, key),
    ensures
        apply_all(base, id, events).contains_key(key) == base.contains_key(key),
        apply_all(base, id, events)[key] == base[key],
    decreases events.len(),
{
    if events.len() > 0 {
        let front = events.drop_last();
        assert(!touches(front, key)) by {
            if touches(front, key) {
                let j = choose|j: int| 0 <= j < front.len() && #[trigger] front[j].record.key() == key;
                assert(events[j].record.key() == key);
            }
        }
        lemma_apply_all_untouched(base, id, front, key);
        assert(events[events.len() - 1].record.key() != key);
    }
}

/// Events that are about a key decide its entry, whatever it was before, and
/// an entry they leave stands in their segment.
pub proof fn lemma_apply_all_touched(
    one: IndexView,
    other: IndexView,
    id: u32,
    events: Seq<Event>,
    key: Seq<char>,
)
    requires
        touches(events, key),
    ensures
        apply_all(one, id, events).contains_key(key) == apply_all(other, id, events).contains_key(
            key,
        ),
        apply_all(one, id, events).contains_key(key) ==> apply_all(one, id, events)[key]
            == apply_all(other, id, events)[key],
        apply_all(one, id, events).contains_key(key) ==> apply_all(
            one,
            id,
            events,
        )[key].log_reader_id == id,
    decreases events.len(),
{
    let last = events[events.len() - 1];
    let front = events.drop_last();
    if last.record.key() != key {
        let j = choose|j: int| 0 <= j < events.len() && #[trigger] events[j].record.key() == key;
        assert(front[j].record.key() == key);
        lemma_apply_all_touched(one, other, id, front, key);
    }
}

/// An entry that replaying leaves stands in one of the segments replayed.
pub proof fn lemma_replay_ids(ids: Seq<u32>, disk: Disk, key: Seq<char>)
    requires
        replay(ids, disk).contains_key(key),
    ensures
        ids.contains(replay(ids, disk)[key].log_reader_id),
    decreases ids.len(),
{
    if ids.len() > 0 {
        let front = ids.drop_last();
        let events = records(disk[ids.last()]);
        let base = replay(front, disk);
        if touches(events, key) {
            lemma_apply_all_touched(base, base, ids.last(), events, key);
            assert(ids[ids.len() - 1] == ids.last());
        } else {
            lemma_apply_all_untouched(base, ids.last(), events, key);
            lemma_replay_ids(front, disk, key);
            let at = base[key].log_reader_id;
            let i = choose|i: int| 0 <= i < front.len() && front[i] == at;
            assert(ids[i] == at);
        }
    }
}

/// The two segments that compaction leaves: the one that was active, as it
/// was, and the new one with the moved records.
pub open spec fn compacted_disk(
    disk: Disk,
    index: IndexView,
    keys: Seq<Seq<char>>,
    active: u32,
    dest: u32,
) -> Disk {
    Map::<u32, Seq<u8>>::empty().insert(active, disk[active]).insert(
        dest,
        copied(disk, index, keys, active, keys.len()),
    )
}

/// Replaying the two segments that compaction leaves gives the index that
/// compaction leaves.
pub proof fn lemma_compaction_replay(ids: Seq<u32>, disk: Disk, keys: Seq<Seq<char>>, dest: u32)
    requires
        ids.len() > 0,
        ascending(ids),
        dest != ids.last(),
        distinct(keys),
        forall|j: int| 0 <= j < keys.len() ==> #[trigger] replay(ids, disk).contains_key(keys[j]),
        forall|key: Seq<char>| #[trigger]
            replay(ids, disk).contains_key(key) ==> keys.contains(key),
        entries_stand(replay(ids, disk), disk),
    ensures
        replay(
            seq![ids.last(), dest],
            compacted_disk(disk, replay(ids, disk), keys, ids.last(), dest),
        ) == compacted(
            replay(ids, disk),
            replay(ids, disk),
            keys,
            ids.last(),
            dest,
            keys.len(),
        ),
{
    let index = replay(ids, disk);
    let active = ids.last();
    let n = keys.len();
    let after = compacted_disk(disk, index, keys, active, dest);
    let two = seq![active, dest];
    let events = records(disk[active]);
    let lower = replay(ids.drop_last(), disk);
    let alone = apply_all(Map::<Seq<char>, TransactionPosition>::empty(), active, events);
    assert(two.drop_last() =~= seq![active]);
    assert(seq![active].drop_last() =~= Seq::<u32>::empty());
    assert(replay(seq![active], after) == alone) by {
        assert(seq![active].last() == active);
        assert(after[active] == disk[active]);
        assert(replay(Seq::<u32>::empty(), after) == Map::<Seq<char>, TransactionPosition>::empty());
    }
    lemma_copied_records(disk, index, keys, active, n);
    lemma_landed_applies(alone, disk, index, keys, active, dest, n);
    assert(replay(two, after) == compacted(alone, index, keys, active, dest, n)) by {
        assert(two.last() == dest);
        assert(after[dest] == copied(disk, index, keys, active, n));
    }
    let left = compacted(alone, index, keys, active, dest, n);
    let right = compacted(index, index, keys, active, dest, n);
    assert forall|key: Seq<char>|
        #[trigger] left.contains_key(key) == right.contains_key(key) && (left.contains_key(key)
            ==> left[key] == right[key]) by {
        if exists|turn: int| 0 <= turn < n && keys[turn] == key && moves(index, active, keys[turn]) {
            let turn = choose|turn: int|
                0 <= turn < n && keys[turn] == key && moves(index, active, keys[turn]);
            lemma_compacted_moves(alone, index, keys, active, dest, n, turn as nat);
            lemma_compacted_moves(index, index, keys, active, dest, n, turn as nat);
        } else {
            lemma_compacted_keeps(alone, index, keys, active, dest, n, key);
            lemma_compacted_keeps(index, index, keys, active, dest, n, key);
            if touches(events, key) {
                lemma_apply_all_touched(
                    Map::<Seq<char>, TransactionPosition>::empty(),
                    lower,
                    active,
                    events,
                    key,
                );
            } else {
                lemma_apply_all_untouched(
                    Map::<Seq<char>, TransactionPosition>::empty(),
                    active,
                    events,
                    key,
                );
                lemma_apply_all_untouched(lower, active, events, key);
                if lower.contains_key(key) {
                    lemma_replay_ids(ids.drop_last(), disk, key);
                    let front = ids.drop_last();
                    let at = lower[key].log_reader_id;
                    let i = choose|i: int| 0 <= i < front.len() && front[i] == at;
                    assert(ids[i] < ids[ids.len() - 1]);
                    assert(moves(index, active, key));
                    assert(keys.contains(key));
                    let turn = choose|turn: int| 0 <= turn < keys.len() && keys[turn] == key;
                    assert(keys[turn] == key && moves(index, active, keys[turn]));
                }
            }
        }
    }
    assert(left.dom() =~= right.dom()) by {
        assert forall|key: Seq<char>| left.dom().contains(key) == right.dom().contains(key) by {
            assert(left.contains_key(key) == right.contains_key(key));
        }
    }
    assert(left =~= right) by {
        assert forall|key: Seq<char>| left.dom().contains(key) implies left[key] == right[key] by {
            assert(left.contains_key(key));
        }
    }
}

} // verus!
