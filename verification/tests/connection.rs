use kvs::connection::Connection;
use kvs::error::KvsError;
use kvs::server::{Request, Response};

#[test]
fn nothing_arrived() {
    let mut connection = Connection::new();
    assert_eq!(connection.buffered(), 0);
    assert_eq!(connection.read_request(), Ok(None));
    assert_eq!(connection.end_of_stream(), Ok(()));
}

#[test]
fn a_request_arrives_in_pieces() {
    let request = Request::Put("k1".to_string(), "value1".to_string());
    let bytes = request.to_bytes().unwrap();
    let mut connection = Connection::new();
    for byte in &bytes[..bytes.len() - 1] {
        connection.feed(&[*byte]).unwrap();
        assert_eq!(connection.read_request(), Ok(None));
        assert_eq!(connection.end_of_stream(), Err(KvsError::ConnectionReset));
    }
    connection.feed(&bytes[bytes.len() - 1..]).unwrap();
    assert_eq!(connection.buffered(), bytes.len());
    assert_eq!(connection.read_request(), Ok(Some(request)));
    assert_eq!(connection.buffered(), 0);
    assert_eq!(connection.read_request(), Ok(None));
    assert_eq!(connection.end_of_stream(), Ok(()));
}

#[test]
fn one_read_takes_one_message() {
    let first = Request::Get("k1".to_string());
    let second = Request::Remove("k2".to_string());
    let mut bytes = first.to_bytes().unwrap();
    let second_bytes = second.to_bytes().unwrap();
    bytes.extend_from_slice(&second_bytes);
    bytes.extend_from_slice(&[9, 0]);
    let mut connection = Connection::new();
    connection.feed(&bytes).unwrap();
    assert_eq!(connection.read_request(), Ok(Some(first)));
    assert_eq!(connection.buffered(), second_bytes.len() + 2);
    assert_eq!(connection.read_request(), Ok(Some(second)));
    assert_eq!(connection.buffered(), 2);
    assert_eq!(connection.read_request(), Ok(None));
    assert_eq!(connection.end_of_stream(), Err(KvsError::ConnectionReset));
}

#[test]
fn a_response_is_read_back() {
    let response = Response { response: "value1".to_string() };
    let mut connection = Connection::new();
    connection.feed(&response.to_bytes().unwrap()).unwrap();
    assert_eq!(connection.read_response(), Ok(Some(response)));
    assert_eq!(connection.read_response(), Ok(None));
}

#[test]
fn what_is_no_message_is_refused() {
    let mut connection = Connection::new();
    connection.feed(&[1, 0, 0, 0, 0]).unwrap();
    assert_eq!(connection.read_request(), Err(KvsError::Decode));
    assert_eq!(connection.buffered(), 5);
    let mut connection = Connection::new();
    connection.feed(&Response { response: "x".to_string() }.to_bytes().unwrap()).unwrap();
    let held = connection.buffered();
    assert_eq!(connection.read_request(), Err(KvsError::Decode));
    assert_eq!(connection.buffered(), held);
    assert_eq!(connection.read_response(), Ok(Some(Response { response: "x".to_string() })));
}

#[test]
fn a_buffer_larger_than_its_first_capacity() {
    let value = "v".repeat(3 * kvs::connection::INITIAL_CAPACITY);
    let request = Request::Put("k".to_string(), value);
    let mut connection = Connection::new();
    connection.feed(&request.to_bytes().unwrap()).unwrap();
    assert_eq!(connection.read_request(), Ok(Some(request)));
}
