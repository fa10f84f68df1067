use std::collections::HashMap;
use std::sync::{Arc, Mutex};

use kvs::engine::KvsEngine;
use kvs::error::KvsError;
use kvs::client::reply_text;
use kvs::server::{
    check_engine, connection_step, get_response, remove_response, set_response, ConnectionStep,
    Request, Response, Server,
};
use kvs::thread_pool::{replaces_worker, worker_step, ThreadPoolMessage, WorkerStep};

#[derive(Clone)]
struct MemoryEngine {
    map: Arc<Mutex<HashMap<String, String>>>,
}

impl MemoryEngine {
    fn new() -> MemoryEngine {
        MemoryEngine { map: Arc::new(Mutex::new(HashMap::new())) }
    }
}

impl KvsEngine for MemoryEngine {
    fn get(&self, key: String) -> Result<String, KvsError> {
        self.map.lock().unwrap().get(&key).cloned().ok_or(KvsError::KeyNotFound)
    }

    fn set(&self, key: String, value: String) -> Result<Option<String>, KvsError> {
        Ok(self.map.lock().unwrap().insert(key, value))
    }

    fn remove(&self, key: String) -> Result<(), KvsError> {
        self.map.lock().unwrap().remove(&key).map(|_| ()).ok_or(KvsError::KeyNotFound)
    }
}

fn text(response: Response) -> String {
    response.response
}

#[test]
fn the_server_answers_requests() {
    let server = Server::new(MemoryEngine::new()).unwrap();
    let mut engine = server.engine().clone();
    let set = Request::Put("k1".to_string(), "value1".to_string());
    assert_eq!(text(Server::process_transaction(&mut engine, &set)), "");
    let get = Request::Get("k1".to_string());
    assert_eq!(text(Server::process_transaction(&mut engine, &get)), "value1");
    let set = Request::Put("k1".to_string(), "value2".to_string());
    assert_eq!(text(Server::process_transaction(&mut engine, &set)), "");
    assert_eq!(text(Server::process_transaction(&mut engine, &get)), "value2");
    let get = Request::Get("k2".to_string());
    assert_eq!(text(Server::process_transaction(&mut engine, &get)), "Key not found");
    let remove = Request::Remove("k2".to_string());
    assert!(text(Server::process_transaction(&mut engine, &remove)).contains("Key not found"));
    let remove = Request::Remove("k1".to_string());
    assert_eq!(text(Server::process_transaction(&mut engine, &remove)), "");
    let get = Request::Get("k1".to_string());
    assert_eq!(text(Server::process_transaction(&mut engine, &get)), "Key not found");
}

#[test]
fn the_server_writes_its_answer() {
    let mut engine = MemoryEngine::new();
    let set = Request::Put("k1".to_string(), "value1".to_string());
    let bytes = Server::process_request(&mut engine, &set).unwrap();
    assert_eq!(Response::from_bytes(&bytes), Ok(Response { response: String::new() }));
    let get = Request::Get("k1".to_string());
    let bytes = Server::process_request(&mut engine, &get).unwrap();
    assert_eq!(Response::from_bytes(&bytes), Ok(Response { response: "value1".to_string() }));
}

#[test]
fn the_single_answers() {
    let mut engine = MemoryEngine::new();
    let key = "k".to_string();
    assert_eq!(text(Server::get(&mut engine, &key)), "Key not found");
    assert_eq!(text(Server::remove(&mut engine, &key)), "Key not found");
    assert_eq!(text(Server::set(&mut engine, &key, &"v".to_string())), "");
    assert_eq!(text(Server::get(&mut engine, &key)), "v");
    assert_eq!(text(Server::remove(&mut engine, &key)), "");
}

#[test]
fn answers_for_each_outcome() {
    assert_eq!(text(get_response(Ok("v".to_string()))), "v");
    assert_eq!(text(get_response(Err(KvsError::KeyNotFound))), "Key not found");
    assert_eq!(text(get_response(Err(KvsError::Io))), "input or output failed");
    assert_eq!(text(get_response(Err(KvsError::Decode))), "malformed record or message");
    assert_eq!(text(set_response(Ok(None))), "");
    assert_eq!(text(set_response(Ok(Some("old".to_string())))), "");
    assert_eq!(text(set_response(Err(KvsError::TooLarge))), "record too large");
    assert_eq!(text(remove_response(Ok(()))), "");
    assert_eq!(text(remove_response(Err(KvsError::KeyNotFound))), "Key not found");
    assert_eq!(text(remove_response(Err(KvsError::Io))), "input or output failed");
}

#[test]
fn every_error_has_its_words() {
    assert_eq!(KvsError::KeyNotFound.message(), "Key not found");
    assert_eq!(KvsError::Decode.message(), "malformed record or message");
    assert_eq!(KvsError::TooLarge.message(), "record too large");
    assert_eq!(KvsError::SegmentsExhausted.message(), "no segment id left");
    assert_eq!(KvsError::SegmentOrder.message(), "segment out of order");
    assert_eq!(KvsError::ConnectionReset.message(), "connection reset by peer");
    assert_eq!(KvsError::Io.message(), "input or output failed");
    assert_eq!(KvsError::LockPoisoned.message(), "lock poisoned");
    assert_eq!(KvsError::EngineMismatch.message(), "the directory belongs to another engine");
}

#[test]
fn a_directory_keeps_its_engine() {
    assert_eq!(check_engine(None, "kvs"), Ok(()));
    assert_eq!(check_engine(Some("kvs"), "kvs"), Ok(()));
    assert_eq!(check_engine(Some("sled"), "sled"), Ok(()));
    assert_eq!(check_engine(Some("sled"), "kvs"), Err(KvsError::EngineMismatch));
    assert_eq!(check_engine(Some("kvs"), "sled"), Err(KvsError::EngineMismatch));
}

#[test]
fn what_the_client_makes_of_the_answer() {
    assert_eq!(reply_text(Some(Response { response: "value1".to_string() })), Ok("value1".to_string()));
    assert_eq!(
        reply_text(Some(Response { response: "Key not found".to_string() })),
        Ok("Key not found".to_string())
    );
    assert_eq!(reply_text(None), Err(KvsError::KeyNotFound));
}

#[test]
fn what_a_worker_does() {
    assert!(matches!(worker_step(Some(ThreadPoolMessage::RunJob(7))), WorkerStep::Run(7)));
    assert!(matches!(worker_step(Some(ThreadPoolMessage::<u8>::Shutdown)), WorkerStep::Stop));
    assert!(matches!(worker_step::<u8>(None), WorkerStep::Wait));
    assert!(replaces_worker(true));
    assert!(!replaces_worker(false));
}

#[derive(Clone)]
struct FailingEngine {}

impl KvsEngine for FailingEngine {
    fn get(&self, _key: String) -> Result<String, KvsError> {
        Err(KvsError::Io)
    }

    fn set(&self, _key: String, _value: String) -> Result<Option<String>, KvsError> {
        Err(KvsError::TooLarge)
    }

    fn remove(&self, _key: String) -> Result<(), KvsError> {
        Err(KvsError::LockPoisoned)
    }
}

#[test]
fn an_engine_error_reaches_the_client_in_its_own_words() {
    let mut engine = FailingEngine {};
    let key = "k".to_string();
    assert_eq!(text(Server::get(&mut engine, &key)), "input or output failed");
    assert_eq!(text(Server::set(&mut engine, &key, &key)), "record too large");
    assert_eq!(text(Server::remove(&mut engine, &key)), "lock poisoned");
    let get = Request::Get(key.clone());
    assert_eq!(text(Server::process_transaction(&mut engine, &get)), "input or output failed");
    let bytes = Server::process_request(&mut engine, &get).unwrap();
    assert_eq!(
        Response::from_bytes(&bytes),
        Ok(Response { response: "input or output failed".to_string() })
    );
}

#[test]
fn what_the_server_does_with_what_it_read() {
    let request = Request::Get("k".to_string());
    assert_eq!(connection_step(Some(request.clone())), ConnectionStep::Answer(request));
    assert_eq!(connection_step(None), ConnectionStep::Close);
}
