use kvs::codec::{scan_frame, Frame};
use kvs::error::KvsError;
use kvs::record::Transaction;
use kvs::server::{Request, Response};

fn text_doc(name: &str, text: &str) -> Vec<u8> {
    let mut doc = bson::Document::new();
    doc.insert(name, bson::Bson::String(text.to_string()));
    bson::to_vec(&doc).unwrap()
}

fn pair_doc(name: &str, first: &str, second: &str) -> Vec<u8> {
    let mut doc = bson::Document::new();
    doc.insert(
        name,
        bson::Bson::Array(vec![
            bson::Bson::String(first.to_string()),
            bson::Bson::String(second.to_string()),
        ]),
    );
    bson::to_vec(&doc).unwrap()
}

#[test]
fn put_record_has_the_exact_bytes() {
    let bytes = Transaction::Put("k".to_string(), "v".to_string()).to_bytes().unwrap();
    let expected: Vec<u8> = vec![
        32, 0, 0, 0, 0x04, b'S', b'e', b't', 0, 23, 0, 0, 0, 0x02, b'0', 0, 2, 0, 0, 0, b'k', 0,
        0x02, b'1', 0, 2, 0, 0, 0, b'v', 0, 0, 0,
    ];
    assert_eq!(bytes.len(), 33);
    assert_eq!(bytes[0], 33);
    assert_eq!(&bytes[1..], &expected[1..]);
}

#[test]
fn remove_record_has_the_exact_bytes() {
    let bytes = Transaction::Remove("key".to_string()).to_bytes().unwrap();
    let expected: Vec<u8> = vec![
        21, 0, 0, 0, 0x02, b'R', b'e', b'm', b'o', b'v', b'e', 0, 4, 0, 0, 0, b'k', b'e', b'y',
        0, 0,
    ];
    assert_eq!(bytes, expected);
}

#[test]
fn records_are_written_as_bson_writes_them() {
    let cases = [("k1", "value1"), ("", ""), ("ключ", "значение ✓"), ("a\0b", "c\0")];
    for (key, value) in cases {
        let put = Transaction::Put(key.to_string(), value.to_string());
        assert_eq!(put.to_bytes().unwrap(), pair_doc("Set", key, value));
        let remove = Transaction::Remove(key.to_string());
        assert_eq!(remove.to_bytes().unwrap(), text_doc("Remove", key));
    }
}

#[test]
fn records_that_bson_wrote_are_read() {
    let bytes = pair_doc("Set", "k1", "value1");
    assert_eq!(
        Transaction::from_bytes(&bytes),
        Ok(Transaction::Put("k1".to_string(), "value1".to_string()))
    );
    let bytes = text_doc("Remove", "k1");
    assert_eq!(Transaction::from_bytes(&bytes), Ok(Transaction::Remove("k1".to_string())));
}

#[test]
fn records_are_read_by_bson() {
    let bytes = Transaction::Put("k1".to_string(), "value1".to_string()).to_bytes().unwrap();
    let doc = bson::Document::from_reader(&mut bytes.as_slice()).unwrap();
    let pair = doc.get_array("Set").unwrap();
    assert_eq!(pair.len(), 2);
    assert_eq!(pair[0].as_str(), Some("k1"));
    assert_eq!(pair[1].as_str(), Some("value1"));
    let bytes = Transaction::Remove("gone".to_string()).to_bytes().unwrap();
    let doc = bson::Document::from_reader(&mut bytes.as_slice()).unwrap();
    assert_eq!(doc.get_str("Remove"), Ok("gone"));
}

#[test]
fn record_round_trip() {
    let records = vec![
        Transaction::Put("key".to_string(), "value".to_string()),
        Transaction::Put(String::new(), String::new()),
        Transaction::Remove("key".to_string()),
        Transaction::Remove("日本語".to_string()),
    ];
    for record in records {
        let bytes = record.to_bytes().unwrap();
        assert_eq!(Transaction::from_bytes(&bytes), Ok(record));
    }
}

#[test]
fn request_round_trip() {
    let requests = vec![
        Request::Get("k1".to_string()),
        Request::Put("k1".to_string(), "value1".to_string()),
        Request::Remove("k1".to_string()),
    ];
    for request in requests {
        let bytes = request.to_bytes().unwrap();
        assert_eq!(Request::from_bytes(&bytes), Ok(request));
    }
}

#[test]
fn requests_are_written_as_bson_writes_them() {
    assert_eq!(Request::Get("k".to_string()).to_bytes().unwrap(), text_doc("Get", "k"));
    assert_eq!(
        Request::Put("k".to_string(), "v".to_string()).to_bytes().unwrap(),
        pair_doc("Set", "k", "v")
    );
    assert_eq!(Request::Remove("k".to_string()).to_bytes().unwrap(), text_doc("Remove", "k"));
}

#[test]
fn response_round_trip() {
    for text in ["", "value1", "Key not found"] {
        let response = Response { response: text.to_string() };
        let bytes = response.to_bytes().unwrap();
        assert_eq!(bytes, text_doc("response", text));
        assert_eq!(Response::from_bytes(&bytes), Ok(response));
    }
}

#[test]
fn a_request_is_no_response() {
    let bytes = Request::Get("k".to_string()).to_bytes().unwrap();
    assert_eq!(Response::from_bytes(&bytes), Err(KvsError::Decode));
    let bytes = Response { response: "x".to_string() }.to_bytes().unwrap();
    assert_eq!(Request::from_bytes(&bytes), Err(KvsError::Decode));
}

#[test]
fn text_that_is_not_utf8_is_refused() {
    let mut bytes = Transaction::Remove("ab".to_string()).to_bytes().unwrap();
    let at = bytes.len() - 4;
    bytes[at] = 0xff;
    assert_eq!(Transaction::from_bytes(&bytes), Err(KvsError::Decode));
}

#[test]
fn a_cut_record_is_refused() {
    let bytes = Transaction::Put("k".to_string(), "v".to_string()).to_bytes().unwrap();
    assert_eq!(Transaction::from_bytes(&bytes[..bytes.len() - 1]), Err(KvsError::Decode));
    let mut longer = bytes.clone();
    longer.push(0);
    assert_eq!(Transaction::from_bytes(&longer), Err(KvsError::Decode));
    assert_eq!(Transaction::from_bytes(&[]), Err(KvsError::Decode));
}

#[test]
fn frames_are_told_apart() {
    let bytes = Transaction::Put("k".to_string(), "v".to_string()).to_bytes().unwrap();
    assert_eq!(scan_frame(&bytes), Frame::Complete(33));
    assert_eq!(scan_frame(&bytes[..32]), Frame::Incomplete);
    assert_eq!(scan_frame(&bytes[..3]), Frame::Incomplete);
    assert_eq!(scan_frame(&[]), Frame::Incomplete);
    assert_eq!(scan_frame(&[4, 0, 0, 0, 0]), Frame::Malformed);
    assert_eq!(scan_frame(&[0xff, 0xff, 0xff, 0xff]), Frame::Malformed);
    assert_eq!(scan_frame(&[5, 0, 0, 0, 1]), Frame::Malformed);
    assert_eq!(scan_frame(&[5, 0, 0, 0, 0, 9, 9]), Frame::Complete(5));
    let mut two = bytes.clone();
    two.extend_from_slice(&bytes);
    assert_eq!(scan_frame(&two), Frame::Complete(33));
}
