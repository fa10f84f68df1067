use std::collections::HashMap;

use kvs::error::KvsError;
use kvs::kvs::{Append, BufferWriter, Compaction, KVStore, Move, LOG_MAX_SIZE};
use kvs::log::TransactionPosition;
use kvs::record::Transaction;

/// The files of a database directory, held in memory.
struct Files {
    segments: HashMap<u32, Vec<u8>>,
}

impl Files {
    fn new() -> Files {
        Files { segments: HashMap::new() }
    }

    fn append(&mut self, append: &Append) {
        if append.opened {
            assert!(!self.segments.contains_key(&append.segment));
            self.segments.insert(append.segment, Vec::new());
        }
        let file = self.segments.get_mut(&append.segment).unwrap();
        assert_eq!(file.len(), append.offset as usize);
        file.extend_from_slice(&append.bytes);
    }

    fn read(&self, at: TransactionPosition) -> Vec<u8> {
        let file = &self.segments[&at.log_reader_id];
        file[at.offset as usize..(at.offset + at.len) as usize].to_vec()
    }

    fn compact(&mut self, plan: &Compaction) {
        let mut dest: Vec<u8> = Vec::new();
        for step in &plan.moves {
            assert_eq!(dest.len(), step.to as usize);
            let bytes = self.read(step.from);
            dest.extend_from_slice(&bytes);
        }
        self.segments.insert(plan.segment, dest);
        for id in &plan.removed {
            self.segments.remove(id);
        }
    }

    fn names(&self) -> Vec<String> {
        let mut names: Vec<String> =
            self.segments.keys().map(|id| kvs::segment::log_name(*id)).collect();
        names.sort();
        names
    }
}

fn set(store: &mut KVStore, files: &mut Files, key: &str, value: &str) {
    let plan = store.plan_set(&key.to_string(), &value.to_string()).unwrap();
    let append = store.set(key.to_string(), value.to_string()).unwrap();
    assert_eq!(plan, append);
    files.append(&append);
}

fn remove(store: &mut KVStore, files: &mut Files, key: &str) -> Result<(), KvsError> {
    let plan = store.plan_remove(&key.to_string());
    let append = store.remove(&key.to_string());
    assert_eq!(plan, append);
    files.append(&append?);
    Ok(())
}

fn get(store: &KVStore, files: &Files, key: &str) -> Result<String, KvsError> {
    let at = store.locate(&key.to_string())?;
    KVStore::read_value(&files.read(at))
}

fn reopen(files: &Files) -> KVStore {
    let names = files.names();
    let ids = kvs::segment::segment_ids(&names);
    let mut store = KVStore::new();
    for id in ids {
        let valid = store.load_segment(id, &files.segments[&id]).unwrap();
        assert_eq!(valid as usize, files.segments[&id].len());
    }
    store
}

#[test]
fn kvs_engine_new_write_log() {
    let mut files = Files::new();
    let mut kv_store = KVStore::new();
    let mut key_id = 1;

    loop {
        key_id += 1;
        set(&mut kv_store, &mut files, &key_id.to_string(), &(key_id * 20).to_string());

        let mut names = files.names();
        if names.len() >= 2 {
            names.sort();
            assert!(names.last().unwrap().ends_with("1.log"));
            break;
        }
    }
    assert!(get(&kv_store, &files, &key_id.to_string())
        .unwrap()
        .eq(&(key_id * 20).to_string()));
}

#[test]
fn kvs_engine_compress() {
    let mut files = Files::new();
    let mut kv_store = KVStore::new();
    let mut key_id = 1;
    loop {
        key_id += 1;
        set(&mut kv_store, &mut files, &key_id.to_string(), &(key_id * 20).to_string());

        let mut names = files.names();
        if names.len() >= 3 {
            names.sort();
            assert!(names.last().unwrap().ends_with("2.log"));
            break;
        }
    }

    let plan = kv_store.compress_by_index().unwrap();
    files.compact(&plan);
    let mut names = files.names();

    names.sort();
    assert_eq!(names.len(), 2);
    assert!(names.last().unwrap().ends_with("3.log"));
    assert!(get(&kv_store, &files, &key_id.to_string())
        .unwrap()
        .eq(&(key_id * 20).to_string()));
    let first = 2;
    assert_eq!(get(&kv_store, &files, &first.to_string()).unwrap(), "40");
    let reopened = reopen(&files);
    assert_eq!(get(&reopened, &files, &key_id.to_string()).unwrap(), (key_id * 20).to_string());
    assert_eq!(get(&reopened, &files, &first.to_string()).unwrap(), "40");
}

#[test]
fn a_new_store_has_no_segment() {
    let store = KVStore::new();
    assert_eq!(store.max_reader_id(), None);
    assert!(store.segments().is_empty());
    assert_eq!(store.active_len(), 0);
    assert!(store.needs_rotation(0));
    assert_eq!(store.locate(&"k".to_string()), Err(KvsError::KeyNotFound));
}

#[test]
fn the_first_set_opens_segment_zero() {
    let mut store = KVStore::new();
    let append = store.set("k1".to_string(), "value1".to_string()).unwrap();
    let bytes = Transaction::Put("k1".to_string(), "value1".to_string()).to_bytes().unwrap();
    assert_eq!(
        append,
        Append { opened: true, segment: 0, offset: 0, bytes: bytes.clone(), replaced: None }
    );
    assert_eq!(store.segments(), &vec![0]);
    assert_eq!(store.max_reader_id(), Some(0));
    assert_eq!(store.active_len() as usize, bytes.len());
    assert_eq!(
        store.locate(&"k1".to_string()),
        Ok(TransactionPosition { log_reader_id: 0, offset: 0, len: bytes.len() as u32 })
    );
}

#[test]
fn set_then_get() {
    let mut files = Files::new();
    let mut store = KVStore::new();
    set(&mut store, &mut files, "k1", "value1");
    assert_eq!(get(&store, &files, "k1").unwrap(), "value1");
}

#[test]
fn set_overwrites() {
    let mut files = Files::new();
    let mut store = KVStore::new();
    set(&mut store, &mut files, "k1", "value1");
    set(&mut store, &mut files, "k1", "value2");
    assert_eq!(get(&store, &files, "k1").unwrap(), "value2");
    set(&mut store, &mut files, "k1", "value2");
    set(&mut store, &mut files, "k1", "value2");
    assert_eq!(get(&store, &files, "k1").unwrap(), "value2");
    let len = Transaction::Put("k1".to_string(), "value1".to_string()).to_bytes().unwrap().len();
    assert_eq!(
        store.locate(&"k1".to_string()),
        Ok(TransactionPosition {
            log_reader_id: 0,
            offset: 3 * len as u32,
            len: len as u32
        })
    );
}

#[test]
fn get_of_a_key_never_set() {
    let mut files = Files::new();
    let mut store = KVStore::new();
    set(&mut store, &mut files, "k1", "value1");
    assert_eq!(get(&store, &files, "k2"), Err(KvsError::KeyNotFound));
}

#[test]
fn remove_cancels_set() {
    let mut files = Files::new();
    let mut store = KVStore::new();
    set(&mut store, &mut files, "k", "v");
    assert_eq!(remove(&mut store, &mut files, "k"), Ok(()));
    assert_eq!(get(&store, &files, "k"), Err(KvsError::KeyNotFound));
    assert_eq!(remove(&mut store, &mut files, "k"), Err(KvsError::KeyNotFound));
}

#[test]
fn remove_of_a_key_never_set() {
    let mut files = Files::new();
    let mut store = KVStore::new();
    assert_eq!(remove(&mut store, &mut files, "k2"), Err(KvsError::KeyNotFound));
    set(&mut store, &mut files, "k1", "value1");
    assert_eq!(remove(&mut store, &mut files, "k2"), Err(KvsError::KeyNotFound));
    assert_eq!(KvsError::KeyNotFound.message(), "Key not found");
}

#[test]
fn remove_appends_a_tombstone() {
    let mut store = KVStore::new();
    let first = store.set("k".to_string(), "v".to_string()).unwrap();
    let append = store.remove(&"k".to_string()).unwrap();
    let bytes = Transaction::Remove("k".to_string()).to_bytes().unwrap();
    let stood = TransactionPosition { log_reader_id: 0, offset: 0, len: first.bytes.len() as u32 };
    assert_eq!(
        append,
        Append {
            opened: false,
            segment: 0,
            offset: first.bytes.len() as u32,
            bytes,
            replaced: Some(stood)
        }
    );
}

#[test]
fn set_tells_where_the_prior_value_stands() {
    let mut files = Files::new();
    let mut store = KVStore::new();
    let first = store.set("k1".to_string(), "value1".to_string()).unwrap();
    files.append(&first);
    assert_eq!(first.replaced, None);
    let second = store.set("k1".to_string(), "value2".to_string()).unwrap();
    files.append(&second);
    let at = second.replaced.unwrap();
    assert_eq!(at, TransactionPosition { log_reader_id: 0, offset: 0, len: first.bytes.len() as u32 });
    assert_eq!(KVStore::read_value(&files.read(at)), Ok("value1".to_string()));
    let other = store.plan_set(&"k2".to_string(), &"x".to_string()).unwrap();
    assert_eq!(other.replaced, None);
}

#[test]
fn read_value_tells_records_apart() {
    let put = Transaction::Put("k".to_string(), "v".to_string()).to_bytes().unwrap();
    assert_eq!(KVStore::read_value(&put), Ok("v".to_string()));
    let tombstone = Transaction::Remove("k".to_string()).to_bytes().unwrap();
    assert_eq!(KVStore::read_value(&tombstone), Err(KvsError::KeyNotFound));
    assert_eq!(KVStore::read_value(&put[1..]), Err(KvsError::Decode));
}

#[test]
fn a_reopened_store_answers_alike() {
    let mut files = Files::new();
    let mut store = KVStore::new();
    set(&mut store, &mut files, "k1", "value1");
    set(&mut store, &mut files, "k1", "value2");
    set(&mut store, &mut files, "k2", "value3");
    remove(&mut store, &mut files, "k1").unwrap();
    set(&mut store, &mut files, "k3", "x");
    let mut reopened = reopen(&files);
    for key in ["k1", "k2", "k3", "k4"] {
        assert_eq!(get(&reopened, &files, key), get(&store, &files, key));
        assert_eq!(reopened.locate(&key.to_string()), store.locate(&key.to_string()));
    }
    assert_eq!(get(&reopened, &files, "k2").unwrap(), "value3");
    assert_eq!(get(&reopened, &files, "k1"), Err(KvsError::KeyNotFound));
    assert_eq!(reopened.segments(), store.segments());
    assert_eq!(reopened.active_len(), store.active_len());
    set(&mut reopened, &mut files, "k4", "later");
    assert_eq!(get(&reopened, &files, "k4").unwrap(), "later");
    assert_eq!(get(&reopen(&files), &files, "k4").unwrap(), "later");
}

#[test]
fn loading_stops_at_a_cut_record() {
    let mut bytes = Transaction::Put("a".to_string(), "1".to_string()).to_bytes().unwrap();
    let whole = bytes.len();
    let second = Transaction::Put("b".to_string(), "2".to_string()).to_bytes().unwrap();
    bytes.extend_from_slice(&second[..second.len() - 3]);
    let mut store = KVStore::new();
    assert_eq!(store.load_segment(0, &bytes), Ok(whole as u32));
    assert_eq!(store.active_len() as usize, whole);
    assert_eq!(
        store.locate(&"a".to_string()),
        Ok(TransactionPosition { log_reader_id: 0, offset: 0, len: whole as u32 })
    );
    assert_eq!(store.locate(&"b".to_string()), Err(KvsError::KeyNotFound));
    let append = store.set("c".to_string(), "3".to_string()).unwrap();
    assert_eq!(append.offset as usize, whole);
    assert!(!append.opened);
}

#[test]
fn loading_replays_removes() {
    let mut bytes = Transaction::Put("a".to_string(), "1".to_string()).to_bytes().unwrap();
    bytes.extend_from_slice(&Transaction::Remove("a".to_string()).to_bytes().unwrap());
    bytes.extend_from_slice(&Transaction::Remove("never".to_string()).to_bytes().unwrap());
    let mut store = KVStore::new();
    assert_eq!(store.load_segment(7, &bytes), Ok(bytes.len() as u32));
    assert_eq!(store.locate(&"a".to_string()), Err(KvsError::KeyNotFound));
    assert_eq!(store.segments(), &vec![7]);
}

#[test]
fn segments_are_loaded_in_ascending_order() {
    let mut store = KVStore::new();
    assert_eq!(store.load_segment(3, &[]), Ok(0));
    assert_eq!(store.load_segment(3, &[]), Err(KvsError::SegmentOrder));
    assert_eq!(store.load_segment(1, &[]), Err(KvsError::SegmentOrder));
    assert_eq!(store.load_segment(4, &[]), Ok(0));
    assert_eq!(store.segments(), &vec![3, 4]);
}

#[test]
fn a_later_segment_wins() {
    let first = Transaction::Put("k".to_string(), "old".to_string()).to_bytes().unwrap();
    let second = Transaction::Put("k".to_string(), "new".to_string()).to_bytes().unwrap();
    let mut store = KVStore::new();
    store.load_segment(0, &first).unwrap();
    store.load_segment(1, &second).unwrap();
    assert_eq!(
        store.locate(&"k".to_string()),
        Ok(TransactionPosition { log_reader_id: 1, offset: 0, len: second.len() as u32 })
    );
}

#[test]
fn rollover_adds_one_segment() {
    let mut files = Files::new();
    let mut store = KVStore::new();
    let value = "x".repeat(1024 * 1024);
    let mut counts = Vec::new();
    let mut opened = 0;
    for i in 0..60 {
        let before = store.segments().len();
        let record = Transaction::Put(format!("key{}", i), value.clone()).to_bytes().unwrap();
        let due = store.needs_rotation(record.len() as u32);
        let append = store.set(format!("key{}", i), value.clone()).unwrap();
        assert_eq!(append.bytes, record);
        assert_eq!(append.opened, due);
        files.append(&append);
        let after = store.segments().len();
        assert_eq!(after, before + if append.opened { 1 } else { 0 });
        if append.opened {
            opened += 1;
            assert_eq!(append.offset, 0);
        }
        counts.push(after);
    }
    assert!(counts.windows(2).all(|pair| pair[0] <= pair[1]));
    assert_eq!(opened, store.segments().len());
    assert_eq!(store.segments(), &vec![0, 1, 2]);
    for (id, file) in &files.segments {
        assert!(file.len() <= LOG_MAX_SIZE as usize);
        if *id < 2 {
            assert!(file.len() + value.len() + 64 > LOG_MAX_SIZE as usize);
        }
    }
    assert_eq!(get(&store, &files, "key0").unwrap(), value);
    assert_eq!(get(&store, &files, "key59").unwrap(), value);
}

#[test]
fn compaction_keeps_every_answer() {
    let mut files = Files::new();
    let mut store = KVStore::new();
    let value = "x".repeat(1024 * 1024);
    for i in 0..30 {
        set(&mut store, &mut files, &format!("key{}", i), &value);
    }
    set(&mut store, &mut files, "key1", "short");
    for i in 30..52 {
        set(&mut store, &mut files, &format!("key{}", i), &value);
    }
    remove(&mut store, &mut files, "key2").unwrap();
    remove(&mut store, &mut files, "key40").unwrap();
    set(&mut store, &mut files, "key3", "other");
    assert_eq!(store.segments(), &vec![0, 1, 2]);
    let before: Vec<Result<String, KvsError>> =
        (0..53).map(|i| get(&store, &files, &format!("key{}", i))).collect();
    let planned = store.plan_compaction().unwrap();
    let plan = store.compress_by_index().unwrap();
    assert_eq!(planned, plan);
    assert_eq!(plan.segment, 3);
    assert_eq!(plan.removed, vec![0, 1]);
    files.compact(&plan);
    assert_eq!(store.segments(), &vec![2, 3]);
    assert_eq!(files.names(), vec!["2.log".to_string(), "3.log".to_string()]);
    assert_eq!(store.active_len() as usize, files.segments[&3].len());
    let after: Vec<Result<String, KvsError>> =
        (0..53).map(|i| get(&store, &files, &format!("key{}", i))).collect();
    assert_eq!(before, after);
    assert_eq!(after[1], Ok("short".to_string()));
    assert_eq!(after[2], Err(KvsError::KeyNotFound));
    assert_eq!(after[3], Ok("other".to_string()));
    assert_eq!(after[52], Err(KvsError::KeyNotFound));
    let reopened = reopen(&files);
    let again: Vec<Result<String, KvsError>> =
        (0..53).map(|i| get(&reopened, &files, &format!("key{}", i))).collect();
    assert_eq!(before, again);
    set(&mut store, &mut files, "key2", "back");
    assert_eq!(get(&store, &files, "key2").unwrap(), "back");
    assert_eq!(get(&reopen(&files), &files, "key2").unwrap(), "back");
}

#[test]
fn compaction_moves_in_the_order_of_the_walk() {
    let a = Transaction::Put("a".to_string(), "1".to_string()).to_bytes().unwrap();
    let b = Transaction::Put("b".to_string(), "22".to_string()).to_bytes().unwrap();
    let c = Transaction::Put("c".to_string(), "3".to_string()).to_bytes().unwrap();
    let mut first = a.clone();
    first.extend_from_slice(&b);
    let mut store = KVStore::new();
    store.load_segment(0, &first).unwrap();
    store.load_segment(1, &c).unwrap();
    let plan = store.compress_by_index().unwrap();
    let from_a = TransactionPosition { log_reader_id: 0, offset: 0, len: a.len() as u32 };
    let from_b =
        TransactionPosition { log_reader_id: 0, offset: a.len() as u32, len: b.len() as u32 };
    assert_eq!(
        plan,
        Compaction {
            segment: 2,
            moves: vec![Move { from: from_a, to: 0 }, Move { from: from_b, to: a.len() as u32 }],
            removed: vec![0],
        }
    );
    assert_eq!(
        store.locate(&"b".to_string()),
        Ok(TransactionPosition {
            log_reader_id: 2,
            offset: a.len() as u32,
            len: b.len() as u32
        })
    );
    assert_eq!(
        store.locate(&"c".to_string()),
        Ok(TransactionPosition { log_reader_id: 1, offset: 0, len: c.len() as u32 })
    );
    assert_eq!(store.active_len() as usize, a.len() + b.len());
    assert_eq!(store.max_reader_id(), Some(2));
}

#[test]
fn compaction_of_a_new_store_opens_segment_zero() {
    let mut store = KVStore::new();
    let plan = store.compress_by_index().unwrap();
    assert_eq!(plan, Compaction { segment: 0, moves: vec![], removed: vec![] });
    assert_eq!(store.segments(), &vec![0]);
}

#[test]
fn no_segment_id_is_left() {
    let mut store = KVStore::new();
    store.load_segment(u32::MAX, &[]).unwrap();
    assert_eq!(store.compress_by_index(), Err(KvsError::SegmentsExhausted));
    assert_eq!(store.plan_compaction(), Err(KvsError::SegmentsExhausted));
    assert_eq!(store.segments(), &vec![u32::MAX]);
    let append = store.set("k".to_string(), "v".to_string()).unwrap();
    assert_eq!(append.segment, u32::MAX);
}

#[test]
fn the_writer_buffers_and_hands_out() {
    let mut writer = BufferWriter::new();
    assert_eq!(writer.pos(), 0);
    assert_eq!(writer.write(b"abc"), Ok(3));
    assert_eq!(writer.write(b"de"), Ok(2));
    assert_eq!(writer.pos(), 5);
    assert_eq!(writer.flush(), b"abcde".to_vec());
    assert_eq!(writer.flush(), Vec::<u8>::new());
    assert_eq!(writer.pos(), 5);
    let mut writer = BufferWriter::at(u32::MAX - 2);
    assert_eq!(writer.write(b"abc"), Err(KvsError::TooLarge));
    assert_eq!(writer.pos(), u32::MAX - 2);
    assert_eq!(writer.write(b"ab"), Ok(2));
    assert_eq!(writer.pos(), u32::MAX);
}

#[test]
fn a_full_segment_takes_no_tombstone() {
    let record = Transaction::Put("k".to_string(), "v".to_string()).to_bytes().unwrap();
    let mut store = KVStore::new();
    store.load_segment(0, &record).unwrap();
    assert!(store.plan_remove(&"k".to_string()).is_ok());
    assert_eq!(store.plan_remove(&"x".to_string()), Err(KvsError::KeyNotFound));
}

#[test]
fn a_record_that_would_cross_the_limit_goes_to_a_new_segment() {
    let mut store = KVStore::new();
    let first = store.set("a".to_string(), "1".to_string()).unwrap();
    assert!(first.opened);
    let room = LOG_MAX_SIZE as usize - first.bytes.len();
    assert!(!store.needs_rotation(room as u32));
    assert!(store.needs_rotation(room as u32 + 1));
    let overhead = Transaction::Put("b".to_string(), String::new()).to_bytes().unwrap().len();
    let fits = store.set("b".to_string(), "x".repeat(room - overhead)).unwrap();
    assert!(!fits.opened);
    assert_eq!(store.active_len(), LOG_MAX_SIZE);
    let next = store.set("c".to_string(), String::new()).unwrap();
    assert!(next.opened);
    assert_eq!((next.segment, next.offset), (1, 0));
    let large = store.set("d".to_string(), "y".repeat(LOG_MAX_SIZE as usize)).unwrap();
    assert!(large.opened);
    assert_eq!((large.segment, large.offset), (2, 0));
    assert_eq!(store.segments(), &vec![0, 1, 2]);
}

#[test]
fn a_hundred_sets_then_a_hundred_gets() {
    let mut files = Files::new();
    let mut store = KVStore::new();
    for i in 0..100 {
        set(&mut store, &mut files, &format!("key-{}", i), &format!("value-{}", i));
    }
    for i in 0..100 {
        let value = get(&store, &files, &format!("key-{}", i)).unwrap();
        assert_eq!(value, format!("value-{}", i));
    }
}

#[test]
fn startup_on_an_empty_directory() {
    let mut files = Files::new();
    let ids = kvs::segment::startup_ids(&files.names());
    assert_eq!(ids, vec![0]);
    let mut store = KVStore::new();
    for id in ids {
        let bytes = files.segments.entry(id).or_insert_with(Vec::new).clone();
        assert_eq!(store.load_segment(id, &bytes), Ok(0));
    }
    assert_eq!(files.names(), vec!["0.log".to_string()]);
    assert_eq!(files.segments[&0].len(), 0);
    assert_eq!(store.segments(), &vec![0]);
    assert_eq!(store.max_reader_id(), Some(0));
    assert_eq!(store.active_len(), 0);
    assert_eq!(get(&store, &files, "k1"), Err(KvsError::KeyNotFound));
    let append = store.set("k1".to_string(), "value1".to_string()).unwrap();
    assert!(!append.opened);
    assert_eq!((append.segment, append.offset), (0, 0));
}
