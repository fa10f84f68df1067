//! The messages of the protocol and what the server answers to a request.

use vstd::prelude::*;
use vstd::string::StringExecFns;
use vstd::utf8::{
    decode_utf8, encode_utf8, encode_utf8_decode_utf8, encode_utf8_valid_utf8, valid_utf8,
};
use crate::codec::{
    decode_pair_document, decode_text_document, encode_pair_document, encode_text_document,
    lemma_parse_pair_document, lemma_parse_text_document, lemma_text_is_no_pair,
    lemma_text_under_other_name, pair_document, pair_document_len, parse_pair_document,
    parse_text_document, string_from_utf8, text_document, text_document_len, MAX_DOCUMENT_LEN,
};
use crate::engine::KvsEngine;
use crate::error::{message_text, KvsError};
use crate::record::{remove_name, set_name};
use crate::segment::same_text;

verus! {

/// What a client asks for.
#[derive(Clone, Debug, PartialEq, Eq)]
pub enum Request {
    /// The value of a key.
    Get(String),
    /// That a key gets a value. Its element name on the wire is `Set`.
    Put(String, String),
    /// That a key is taken out.
    Remove(String),
}

/// A request as contracts see it.
pub enum RequestView {
    Get(Seq<char>),
    Put(Seq<char>, Seq<char>),
    Remove(Seq<char>),
}

impl View for Request {
    type V = RequestView;

    /// The same request over character sequences.
    open spec fn view(&self) -> RequestView {
        match self {
            Request::Get(key) => RequestView::Get(key@),
            Request::Put(key, value) => RequestView::Put(key@, value@),
            Request::Remove(key) => RequestView::Remove(key@),
        }
    }
}

/// What the server answers: a single text.
#[derive(Clone, Debug, PartialEq, Eq)]
pub struct Response {
    pub response: String,
}

impl View for Response {
    type V = Seq<char>;

    /// The text of the answer.
    open spec fn view(&self) -> Seq<char> {
        self.response@
    }
}

/// The element name of a `Get` request: the letters `Get`.
pub open spec fn get_name() -> Seq<u8> {
    seq![0x47u8, 0x65u8, 0x74u8]
}

/// The element name of a response: the letters `response`.
pub open spec fn response_name() -> Seq<u8> {
    seq![0x72u8, 0x65u8, 0x73u8, 0x70u8, 0x6fu8, 0x6eu8, 0x73u8, 0x65u8]
}

/// The bytes of a request: `{"Get": key}`, `{"Set": [key, value]}` or
/// `{"Remove": key}`, the texts in UTF-8.
pub open spec fn request_bytes(request: RequestView) -> Seq<u8> {
    match request {
        RequestView::Get(key) => text_document(get_name(), encode_utf8(key)),
        RequestView::Put(key, value) => pair_document(
            set_name(),
            encode_utf8(key),
            encode_utf8(value),
        ),
        RequestView::Remove(key) => text_document(remove_name(), encode_utf8(key)),
    }
}

/// The length of `request_bytes(request)`.
pub open spec fn request_len(request: RequestView) -> nat {
    match request {
        RequestView::Get(key) => text_document_len(get_name(), encode_utf8(key)),
        RequestView::Put(key, value) => pair_document_len(
            set_name(),
            encode_utf8(key),
            encode_utf8(value),
        ),
        RequestView::Remove(key) => text_document_len(remove_name(), encode_utf8(key)),
    }
}

/// The request that a document holds, if it holds one.
pub open spec fn parse_request(doc: Seq<u8>) -> Option<RequestView> {
    match parse_pair_document(doc, set_name()) {
        Some((key, value)) => if valid_utf8(key) && valid_utf8(value) {
            Some(RequestView::Put(decode_utf8(key), decode_utf8(value)))
        } else {
            None
        },
        None => match parse_text_document(doc, get_name()) {
            Some(key) => if valid_utf8(key) {
                Some(RequestView::Get(decode_utf8(key)))
            } else {
                None
            },
            None => match parse_text_document(doc, remove_name()) {
                Some(key) => if valid_utf8(key) {
                    Some(RequestView::Remove(decode_utf8(key)))
                } else {
                    None
                },
                None => None,
            },
        },
    }
}

/// The bytes of a response: `{"response": text}`, the text in UTF-8.
pub open spec fn response_bytes(text: Seq<char>) -> Seq<u8> {
    text_document(response_name(), encode_utf8(text))
}

/// The length of `response_bytes(text)`.
pub open spec fn response_len(text: Seq<char>) -> nat {
    text_document_len(response_name(), encode_utf8(text))
}

/// The text of the response that a document holds, if it holds one.
pub open spec fn parse_response(doc: Seq<u8>) -> Option<Seq<char>> {
    match parse_text_document(doc, response_name()) {
        Some(text) => if valid_utf8(text) {
            Some(decode_utf8(text))
        } else {
            None
        },
        None => None,
    }
}

/// Wire round trip: decoding the bytes of a request gives the request back.
pub proof fn lemma_request_round_trip(request: RequestView)
    requires
        request_len(request) <= MAX_DOCUMENT_LEN,
    ensures
        parse_request(request_bytes(request)) == Some(request),
{
    match request {
        RequestView::Get(key) => {
            lemma_text_is_no_pair(get_name(), encode_utf8(key), set_name());
            lemma_parse_text_document(get_name(), encode_utf8(key));
            encode_utf8_valid_utf8(key);
            encode_utf8_decode_utf8(key);
        },
        RequestView::Put(key, value) => {
            lemma_parse_pair_document(set_name(), encode_utf8(key), encode_utf8(value));
            encode_utf8_valid_utf8(key);
            encode_utf8_valid_utf8(value);
            encode_utf8_decode_utf8(key);
            encode_utf8_decode_utf8(value);
        },
        RequestView::Remove(key) => {
            lemma_text_is_no_pair(remove_name(), encode_utf8(key), set_name());
            lemma_text_under_other_name(remove_name(), encode_utf8(key), get_name());
            lemma_parse_text_document(remove_name(), encode_utf8(key));
            encode_utf8_valid_utf8(key);
            encode_utf8_decode_utf8(key);
        },
    }
}

/// Wire round trip: decoding the bytes of a response gives its text back.
pub proof fn lemma_response_round_trip(text: Seq<char>)
    requires
        response_len(text) <= MAX_DOCUMENT_LEN,
    ensures
        parse_response(response_bytes(text)) == Some(text),
{
    lemma_parse_text_document(response_name(), encode_utf8(text));
    encode_utf8_valid_utf8(text);
    encode_utf8_decode_utf8(text);
}

impl Request {
    /// The request's bytes; `TooLarge` where they would be more than
    /// `MAX_DOCUMENT_LEN`.
    pub fn to_bytes(&self) -> (out: Result<Vec<u8>, KvsError>)
        ensures
            out is Ok <==> request_len(self@) <= MAX_DOCUMENT_LEN,
            out matches Ok(bytes) ==> bytes@ == request_bytes(self@),
            out matches Err(e) ==> e == KvsError::TooLarge,
    {
        let encoded = match self {
            Request::Get(key) => {
                let name: [u8; 3] = [0x47u8, 0x65u8, 0x74u8];
                assert(name@ =~= get_name());
                encode_text_document(name.as_slice(), key.as_str().as_bytes())
            },
            Request::Put(key, value) => {
                let name: [u8; 3] = [0x53u8, 0x65u8, 0x74u8];
                assert(name@ =~= set_name());
                encode_pair_document(
                    name.as_slice(),
                    key.as_str().as_bytes(),
                    value.as_str().as_bytes(),
                )
            },
            Request::Remove(key) => {
                let name: [u8; 6] = [0x52u8, 0x65u8, 0x6du8, 0x6fu8, 0x76u8, 0x65u8];
                assert(name@ =~= remove_name());
                encode_text_document(name.as_slice(), key.as_str().as_bytes())
            },
        };
        match encoded {
            Some(bytes) => Ok(bytes),
            None => Err(KvsError::TooLarge),
        }
    }

    /// The request that `bytes` hold; `Decode` where they are not exactly
    /// the bytes of one request.
    pub fn from_bytes(bytes: &[u8]) -> (out: Result<Request, KvsError>)
        ensures
            match parse_request(bytes@) {
                Some(request) => out matches Ok(r) && r@ == request,
                None => out == Err::<Request, KvsError>(KvsError::Decode),
            },
    {
        let set: [u8; 3] = [0x53u8, 0x65u8, 0x74u8];
        assert(set@ =~= set_name());
        match decode_pair_document(bytes, set.as_slice()) {
            Some((key, value)) => {
                return match string_from_utf8(key) {
                    Some(key) => match string_from_utf8(value) {
                        Some(value) => Ok(Request::Put(key, value)),
                        None => Err(KvsError::Decode),
                    },
                    None => Err(KvsError::Decode),
                };
            },
            None => {},
        }
        let get: [u8; 3] = [0x47u8, 0x65u8, 0x74u8];
        assert(get@ =~= get_name());
        match decode_text_document(bytes, get.as_slice()) {
            Some(key) => {
                return match string_from_utf8(key) {
                    Some(key) => Ok(Request::Get(key)),
                    None => Err(KvsError::Decode),
                };
            },
            None => {},
        }
        let remove: [u8; 6] = [0x52u8, 0x65u8, 0x6du8, 0x6fu8, 0x76u8, 0x65u8];
        assert(remove@ =~= remove_name());
        match decode_text_document(bytes, remove.as_slice()) {
            Some(key) => match string_from_utf8(key) {
                Some(key) => Ok(Request::Remove(key)),
                None => Err(KvsError::Decode),
            },
            None => Err(KvsError::Decode),
        }
    }
}

impl Response {
    /// The response's bytes; `TooLarge` where they would be more than
    /// `MAX_DOCUMENT_LEN`.
    pub fn to_bytes(&self) -> (out: Result<Vec<u8>, KvsError>)
        ensures
            out is Ok <==> response_len(self@) <= MAX_DOCUMENT_LEN,
            out matches Ok(bytes) ==> bytes@ == response_bytes(self@),
            out matches Err(e) ==> e == KvsError::TooLarge,
    {
        let name: [u8; 8] = [0x72u8, 0x65u8, 0x73u8, 0x70u8, 0x6fu8, 0x6eu8, 0x73u8, 0x65u8];
        assert(name@ =~= response_name());
        match encode_text_document(name.as_slice(), self.response.as_str().as_bytes()) {
            Some(bytes) => Ok(bytes),
            None => Err(KvsError::TooLarge),
        }
    }

    /// The response that `bytes` hold; `Decode` where they are not exactly
    /// the bytes of one response.
    pub fn from_bytes(bytes: &[u8]) -> (out: Result<Response, KvsError>)
        ensures
            match parse_response(bytes@) {
                Some(text) => out matches Ok(r) && r@ == text,
                None => out == Err::<Response, KvsError>(KvsError::Decode),
            },
    {
        let name: [u8; 8] = [0x72u8, 0x65u8, 0x73u8, 0x70u8, 0x6fu8, 0x6eu8, 0x73u8, 0x65u8];
        assert(name@ =~= response_name());
        match decode_text_document(bytes, name.as_slice()) {
            Some(text) => match string_from_utf8(text) {
                Some(response) => Ok(Response { response }),
                None => Err(KvsError::Decode),
            },
            None => Err(KvsError::Decode),
        }
    }
}

/// The text of the answer to a `Get`: the value, or the engine's error in
/// words, which for a key without a value are the words `Key not found`.
pub open spec fn get_text(found: Result<String, KvsError>) -> Seq<char> {
    match found {
        Ok(value) => value@,
        Err(e) => message_text(e),
    }
}

/// The text of the answer to a `Set`: empty, or the engine's error in words.
pub open spec fn set_text(done: Result<Option<String>, KvsError>) -> Seq<char> {
    match done {
        Ok(_) => Seq::<char>::empty(),
        Err(e) => message_text(e),
    }
}

/// The text of the answer to a `Remove`: empty, or the engine's error in
/// words.
pub open spec fn remove_text(done: Result<(), KvsError>) -> Seq<char> {
    match done {
        Ok(_) => Seq::<char>::empty(),
        Err(e) => message_text(e),
    }
}

/// The answer to a `Get`: the value, or the engine's error in words, which
/// for a key without a value are the words `Key not found`.
pub fn get_response(found: Result<String, KvsError>) -> (out: Response)
    ensures
        out@ == get_text(found),
{
    match found {
        Ok(value) => Response { response: value },
        Err(e) => Response { response: e.message() },
    }
}

/// The answer to a `Set`: the empty text, or the engine's error in words.
pub fn set_response(done: Result<Option<String>, KvsError>) -> (out: Response)
    ensures
        out@ == set_text(done),
{
    match done {
        Ok(_) => Response { response: String::new() },
        Err(e) => Response { response: e.message() },
    }
}

/// The answer to a `Remove`: the empty text, or the engine's error in words.
pub fn remove_response(done: Result<(), KvsError>) -> (out: Response)
    ensures
        out@ == remove_text(done),
{
    match done {
        Ok(_) => Response { response: String::new() },
        Err(e) => Response { response: e.message() },
    }
}

/// What the server does next on a connection.
#[derive(Clone, Debug, PartialEq, Eq)]
pub enum ConnectionStep {
    /// Answer the request, then read the next one.
    Answer(Request),
    /// Close the connection: the stream ended where no message was begun.
    Close,
}

/// What the server does with what it read from a connection: it answers a
/// request, and closes the connection where the stream ended cleanly.
pub fn connection_step(request: Option<Request>) -> (step: ConnectionStep)
    ensures
        step == match request {
            Some(r) => ConnectionStep::Answer(r),
            None => ConnectionStep::Close,
        },
{
    match request {
        Some(r) => ConnectionStep::Answer(r),
        None => ConnectionStep::Close,
    }
}

/// Whether a directory may be served by the engine `chosen`: it may where no
/// engine has been recorded for it, or the one recorded is the one chosen.
/// `EngineMismatch` where another engine is recorded.
pub fn check_engine(recorded: Option<&str>, chosen: &str) -> (out: Result<(), KvsError>)
    ensures
        out == match recorded {
            Some(owner) if owner@ != chosen@ => Err::<(), KvsError>(KvsError::EngineMismatch),
            _ => Ok::<(), KvsError>(()),
        },
{
    match recorded {
        Some(owner) => {
            if same_text(owner, chosen) {
                Ok(())
            } else {
                Err(KvsError::EngineMismatch)
            }
        },
        None => Ok(()),
    }
}

/// The server: it owns the engine and answers requests with it.
pub struct Server<E: KvsEngine> {
    engine: E,
}

impl<E: KvsEngine> Server<E> {
    /// The engine that the server owns.
    pub closed spec fn held(&self) -> E {
        self.engine
    }

    /// A server over `engine`.
    pub fn new(engine: E) -> (out: Result<Self, KvsError>)
        ensures
            out matches Ok(server) && server.held() == engine,
    {
        Ok(Self { engine })
    }

    /// The engine.
    pub fn engine(&self) -> (engine: &E)
        ensures
            *engine == self.held(),
    {
        &self.engine
    }

    /// Whether `answer` is the text that answers a `Get` of `key`: the text
    /// that `get_text` makes of a result that the engine's `get` gives for
    /// the key.
    pub open spec fn answers_get(engine: E, key: String, answer: Seq<char>) -> bool {
        exists|found: Result<String, KvsError>|
            #[trigger] call_ensures(E::get, (&engine, key), found) && answer == get_text(found)
    }

    /// Whether `answer` is the text that answers a `Set` of `key` to `value`:
    /// the text that `set_text` makes of a result that the engine's `set`
    /// gives for the two.
    pub open spec fn answers_set(engine: E, key: String, value: String, answer: Seq<char>) -> bool {
        exists|done: Result<Option<String>, KvsError>|
            #[trigger] call_ensures(E::set, (&engine, key, value), done) && answer == set_text(
                done,
            )
    }

    /// Whether `answer` is the text that answers a `Remove` of `key`: the
    /// text that `remove_text` makes of a result that the engine's `remove`
    /// gives for the key.
    pub open spec fn answers_remove(engine: E, key: String, answer: Seq<char>) -> bool {
        exists|done: Result<(), KvsError>|
            #[trigger] call_ensures(E::remove, (&engine, key), done) && answer == remove_text(
                done,
            )
    }

    /// Whether `answer` is the text that answers `request`.
    pub open spec fn answers(engine: E, request: Request, answer: Seq<char>) -> bool {
        match request {
            Request::Get(key) => Self::answers_get(engine, key, answer),
            Request::Put(key, value) => Self::answers_set(engine, key, value, answer),
            Request::Remove(key) => Self::answers_remove(engine, key, answer),
        }
    }

    /// Answers `request` with the engine and gives the answer's bytes:
    /// the bytes of the response whose text answers the request; `TooLarge`
    /// where that response is longer than `MAX_DOCUMENT_LEN`. The engine
    /// handle is left as it was.
    pub fn process_request(engine: &mut E, request: &Request) -> (out: Result<Vec<u8>, KvsError>)
        ensures
            exists|answer: Seq<char>|
                {
                    &&& #[trigger] Self::answers(*old(engine), *request, answer)
                    &&& out is Ok <==> response_len(answer) <= MAX_DOCUMENT_LEN
                    &&& out matches Ok(bytes) ==> bytes@ == response_bytes(answer)
                    &&& out matches Err(e) ==> e == KvsError::TooLarge
                },
            *final(engine) == *old(engine),
    {
        let response = Self::process_transaction(engine, request);
        let out = response.to_bytes();
        assert(Self::answers(*old(engine), *request, response@));
        out
    }

    /// Answers `request` with the engine: a `Get` by the engine's `get`, a
    /// `Put` by its `set`, a `Remove` by its `remove`. The engine handle is
    /// left as it was.
    pub fn process_transaction(engine: &mut E, request: &Request) -> (out: Response)
        ensures
            Self::answers(*old(engine), *request, out@),
            *final(engine) == *old(engine),
    {
        match request {
            Request::Get(key) => Self::get(engine, key),
            Request::Put(key, value) => Self::set(engine, key, value),
            Request::Remove(key) => Self::remove(engine, key),
        }
    }

    /// Answers a `Get`: asks the engine for `key` and answers with the value
    /// it gives, or with the engine's error in words.
    /// The engine handle is left as it was.
    pub fn get(engine: &mut E, key: &String) -> (out: Response)
        ensures
            Self::answers_get(*old(engine), *key, out@),
            *final(engine) == *old(engine),
    {
        get_response(engine.get(key.clone()))
    }

    /// Answers a `Set`: has the engine set `key` to `value` and answers with
    /// the empty text, or with the engine's error in words. The engine handle
    /// is left as it was.
    pub fn set(engine: &mut E, key: &String, value: &String) -> (out: Response)
        ensures
            Self::answers_set(*old(engine), *key, *value, out@),
            *final(engine) == *old(engine),
    {
        set_response(engine.set(key.clone(), value.clone()))
    }

    /// Answers a `Remove`: has the engine remove `key` and answers with the
    /// empty text, or with the engine's error in words. The engine handle is
    /// left as it was.
    pub fn remove(engine: &mut E, key: &String) -> (out: Response)
        ensures
            Self::answers_remove(*old(engine), *key, out@),
            *final(engine) == *old(engine),
    {
        remove_response(engine.remove(key.clone()))
    }
}

} // verus!
