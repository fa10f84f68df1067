use kvs::segment::{log_name, same_text, segment_id, segment_ids, startup_ids};

#[test]
fn names_of_segments() {
    assert_eq!(log_name(0), "0.log");
    assert_eq!(log_name(1), "1.log");
    assert_eq!(log_name(10), "10.log");
    assert_eq!(log_name(4294967295), "4294967295.log");
}

#[test]
fn ids_of_names() {
    assert_eq!(segment_id("0.log"), Some(0));
    assert_eq!(segment_id("17.log"), Some(17));
    assert_eq!(segment_id("4294967295.log"), Some(u32::MAX));
    assert_eq!(segment_id("4294967296.log"), None);
    assert_eq!(segment_id("99999999999.log"), None);
    assert_eq!(segment_id("007.log"), None);
    assert_eq!(segment_id("00.log"), None);
    assert_eq!(segment_id(".log"), None);
    assert_eq!(segment_id("1.lo"), None);
    assert_eq!(segment_id("1.logs"), None);
    assert_eq!(segment_id("index"), None);
    assert_eq!(segment_id("1a.log"), None);
    assert_eq!(segment_id("-1.log"), None);
    assert_eq!(segment_id("١.log"), None);
    assert_eq!(segment_id(""), None);
}

#[test]
fn a_name_names_its_segment() {
    for id in [0u32, 1, 9, 10, 11, 99, 100, 12345, 1 << 31, u32::MAX - 1, u32::MAX] {
        assert_eq!(segment_id(&log_name(id)), Some(id));
    }
}

#[test]
fn ids_come_in_ascending_order() {
    let names: Vec<String> =
        ["10.log", "2.log", "index", "0.log", "2.log", "x.log"].iter().map(|n| n.to_string()).collect();
    assert_eq!(segment_ids(&names), vec![0, 2, 10]);
    assert_eq!(segment_ids(&Vec::new()), Vec::<u32>::new());
}

#[test]
fn the_same_ids_in_any_order_of_names() {
    let one: Vec<String> = ["3.log", "1.log", "2.log"].iter().map(|n| n.to_string()).collect();
    let other: Vec<String> = ["2.log", "3.log", "1.log", "1.log"].iter().map(|n| n.to_string()).collect();
    assert_eq!(segment_ids(&one), vec![1, 2, 3]);
    assert_eq!(segment_ids(&other), vec![1, 2, 3]);
}

#[test]
fn texts_are_told_apart() {
    assert!(same_text("kvs", "kvs"));
    assert!(same_text("", ""));
    assert!(!same_text("kvs", "sled"));
    assert!(!same_text("kvs", "kvs "));
    assert!(!same_text("ключ", "ключи"));
}

#[test]
fn an_empty_directory_starts_with_segment_zero() {
    assert_eq!(startup_ids(&Vec::new()), vec![0]);
    let other: Vec<String> = ["index", "engine", "x.log"].iter().map(|n| n.to_string()).collect();
    assert_eq!(startup_ids(&other), vec![0]);
}

#[test]
fn a_directory_with_segments_starts_with_them() {
    let names: Vec<String> = ["3.log", "engine", "2.log"].iter().map(|n| n.to_string()).collect();
    assert_eq!(startup_ids(&names), vec![2, 3]);
    let one: Vec<String> = vec!["7.log".to_string()];
    assert_eq!(startup_ids(&one), vec![7]);
}
