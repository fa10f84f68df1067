//! The receiving side of a connection: a growing buffer from whose front
//! whole messages are taken, one at a time.
//!
//! The connection holds no socket. The caller hands it the bytes that
//! arrived and asks for the next message.

use vstd::prelude::*;
use vstd::slice::slice_subrange;
use vstd::utf8::encode_utf8;
use crate::codec::{
    frame, lemma_frame_of_pair_document, lemma_frame_of_text_document, scan_frame, Frame,
    MAX_DOCUMENT_LEN,
};
use crate::error::KvsError;
use crate::record::{remove_name, set_name};
use crate::server::{
    get_name, lemma_request_round_trip, lemma_response_round_trip, parse_request,
    parse_response, request_bytes, request_len, response_bytes, response_len, response_name,
    Request, RequestView, Response,
};

verus! {

/// `bytes::BytesMut`: a growable byte buffer. Contracts see of it only the
/// bytes it holds, by `buffer_bytes`.
#[verifier::external_type_specification]
#[verifier::external_body]
pub struct ExBytesMut(bytes::BytesMut);

/// The bytes that a buffer holds, first to last.
pub uninterp spec fn buffer_bytes(buffer: bytes::BytesMut) -> Seq<u8>;

/// The capacity that a connection's buffer starts with.
pub const INITIAL_CAPACITY: usize = 4096;

/// `BytesMut::with_capacity`: a buffer that holds no byte.
#[verifier::external_body]
fn buffer_with_capacity(capacity: usize) -> (buffer: bytes::BytesMut)
    requires
        capacity <= isize::MAX,
    ensures
        buffer_bytes(buffer) == Seq::<u8>::empty(),
{
    bytes::BytesMut::with_capacity(capacity)
}

/// `BytesMut::len`: the number of bytes that the buffer holds.
#[verifier::external_body]
fn buffer_len(buffer: &bytes::BytesMut) -> (len: usize)
    ensures
        len == buffer_bytes(*buffer).len(),
{
    buffer.len()
}

/// `BytesMut::extend_from_slice`: the buffer holds what it held, then `data`.
#[verifier::external_body]
fn buffer_extend(buffer: &mut bytes::BytesMut, data: &[u8])
    requires
        buffer_bytes(*old(buffer)).len() + data@.len() <= isize::MAX,
    ensures
        buffer_bytes(*final(buffer)) == buffer_bytes(*old(buffer)) + data@,
{
    buffer.extend_from_slice(data)
}

/// `Buf::advance` on a `BytesMut`: the buffer loses its first `count` bytes.
#[verifier::external_body]
fn buffer_advance(buffer: &mut bytes::BytesMut, count: usize)
    requires
        count <= buffer_bytes(*old(buffer)).len(),
    ensures
        buffer_bytes(*final(buffer)) == buffer_bytes(*old(buffer)).subrange(
            count as int,
            buffer_bytes(*old(buffer)).len() as int,
        ),
{
    bytes::Buf::advance(buffer, count)
}

/// `BytesMut::as_ref`: the bytes that the buffer holds, as a slice.
#[verifier::external_body]
fn buffer_slice(buffer: &bytes::BytesMut) -> (slice: &[u8])
    ensures
        slice@ == buffer_bytes(*buffer),
{
    buffer.as_ref()
}

/// The buffer of one connection.
pub struct Connection {
    buf: bytes::BytesMut,
}

impl View for Connection {
    type V = Seq<u8>;

    /// The bytes that arrived and were not yet taken.
    closed spec fn view(&self) -> Seq<u8> {
        buffer_bytes(self.buf)
    }
}

impl Connection {
    /// A connection on which nothing has arrived.
    pub fn new() -> (connection: Connection)
        ensures
            connection@ == Seq::<u8>::empty(),
    {
        Connection { buf: buffer_with_capacity(INITIAL_CAPACITY) }
    }

    /// How many bytes wait in the buffer.
    pub fn buffered(&self) -> (len: usize)
        ensures
            len == self@.len(),
    {
        buffer_len(&self.buf)
    }

    /// Takes in bytes that arrived. `TooLarge`, with nothing changed, where
    /// the buffer would outgrow what can be addressed.
    pub fn feed(&mut self, data: &[u8]) -> (out: Result<(), KvsError>)
        ensures
            out is Ok <==> old(self)@.len() + data@.len() <= isize::MAX,
            match out {
                Ok(_) => final(self)@ == old(self)@ + data@,
                Err(e) => e == KvsError::TooLarge && final(self)@ == old(self)@,
            },
    {
        let held = buffer_len(&self.buf);
        let limit: usize = isize::MAX as usize;
        if held > limit || data.len() > limit - held {
            return Err(KvsError::TooLarge);
        }
        buffer_extend(&mut self.buf, data);
        Ok(())
    }

    /// Takes the next request from the front of the buffer. Nothing is
    /// taken, and `None` given, while the buffer holds only the beginning of
    /// a message. `Decode`, with nothing taken, where the front of the buffer
    /// begins no request.
    pub fn read_request(&mut self) -> (out: Result<Option<Request>, KvsError>)
        ensures
            match frame(old(self)@) {
                Frame::Complete(n) => match parse_request(old(self)@.subrange(0, n as int)) {
                    Some(request) => {
                        &&& out matches Ok(Some(r)) && r@ == request
                        &&& final(self)@ == old(self)@.subrange(n as int, old(self)@.len() as int)
                    },
                    None => out == Err::<Option<Request>, KvsError>(KvsError::Decode)
                        && final(self)@ == old(self)@,
                },
                Frame::Incomplete => out == Ok::<Option<Request>, KvsError>(None) && final(self)@
                    == old(self)@,
                Frame::Malformed => out == Err::<Option<Request>, KvsError>(KvsError::Decode)
                    && final(self)@ == old(self)@,
            },
    {
        let found = scan_frame(buffer_slice(&self.buf));
        match found {
            Frame::Complete(n) => {
                let decoded = Request::from_bytes(slice_subrange(buffer_slice(&self.buf), 0, n));
                match decoded {
                    Ok(request) => {
                        buffer_advance(&mut self.buf, n);
                        Ok(Some(request))
                    },
                    Err(_) => Err(KvsError::Decode),
                }
            },
            Frame::Incomplete => Ok(None),
            Frame::Malformed => Err(KvsError::Decode),
        }
    }

    /// Takes the next response from the front of the buffer. Nothing is
    /// taken, and `None` given, while the buffer holds only the beginning of
    /// a message. `Decode`, with nothing taken, where the front of the buffer
    /// begins no response.
    pub fn read_response(&mut self) -> (out: Result<Option<Response>, KvsError>)
        ensures
            match frame(old(self)@) {
                Frame::Complete(n) => match parse_response(old(self)@.subrange(0, n as int)) {
                    Some(text) => {
                        &&& out matches Ok(Some(r)) && r@ == text
                        &&& final(self)@ == old(self)@.subrange(n as int, old(self)@.len() as int)
                    },
                    None => out == Err::<Option<Response>, KvsError>(KvsError::Decode)
                        && final(self)@ == old(self)@,
                },
                Frame::Incomplete => out == Ok::<Option<Response>, KvsError>(None)
                    && final(self)@ == old(self)@,
                Frame::Malformed => out == Err::<Option<Response>, KvsError>(KvsError::Decode)
                    && final(self)@ == old(self)@,
            },
    {
        let found = scan_frame(buffer_slice(&self.buf));
        match found {
            Frame::Complete(n) => {
                let decoded = Response::from_bytes(slice_subrange(buffer_slice(&self.buf), 0, n));
                match decoded {
                    Ok(response) => {
                        buffer_advance(&mut self.buf, n);
                        Ok(Some(response))
                    },
                    Err(_) => Err(KvsError::Decode),
                }
            },
            Frame::Incomplete => Ok(None),
            Frame::Malformed => Err(KvsError::Decode),
        }
    }

    /// What the end of the stream means: a clean end where the buffer is
    /// empty, `ConnectionReset` where part of a message waits in it.
    pub fn end_of_stream(&self) -> (out: Result<(), KvsError>)
        ensures
            out == if self@.len() == 0 {
                Ok::<(), KvsError>(())
            } else {
                Err::<(), KvsError>(KvsError::ConnectionReset)
            },
    {
        if buffer_len(&self.buf) == 0 {
            Ok(())
        } else {
            Err(KvsError::ConnectionReset)
        }
    }
}

/// A request that was written is read back, and what followed it stays.
pub proof fn lemma_request_is_read(request: RequestView, rest: Seq<u8>)
    requires
        request_len(request) <= MAX_DOCUMENT_LEN,
    ensures
        frame(request_bytes(request) + rest) == Frame::Complete(request_len(request) as usize),
        parse_request((request_bytes(request) + rest).subrange(0, request_len(request) as int))
            == Some(request),
        (request_bytes(request) + rest).subrange(
            request_len(request) as int,
            (request_bytes(request) + rest).len() as int,
        ) == rest,
{
    lemma_request_round_trip(request);
    match request {
        RequestView::Get(key) => lemma_frame_of_text_document(get_name(), encode_utf8(key), rest),
        RequestView::Put(key, value) => lemma_frame_of_pair_document(
            set_name(),
            encode_utf8(key),
            encode_utf8(value),
            rest,
        ),
        RequestView::Remove(key) => lemma_frame_of_text_document(
            remove_name(),
            encode_utf8(key),
            rest,
        ),
    }
    let all = request_bytes(request) + rest;
    assert(all.subrange(request_len(request) as int, all.len() as int) =~= rest);
}

/// A response that was written is read back, and what followed it stays.
pub proof fn lemma_response_is_read(text: Seq<char>, rest: Seq<u8>)
    requires
        response_len(text) <= MAX_DOCUMENT_LEN,
    ensures
        frame(response_bytes(text) + rest) == Frame::Complete(response_len(text) as usize),
        parse_response((response_bytes(text) + rest).subrange(0, response_len(text) as int))
            == Some(text),
        (response_bytes(text) + rest).subrange(
            response_len(text) as int,
            (response_bytes(text) + rest).len() as int,
        ) == rest,
{
    lemma_response_round_trip(text);
    lemma_frame_of_text_document(response_name(), encode_utf8(text), rest);
    let all = response_bytes(text) + rest;
    assert(all.subrange(response_len(text) as int, all.len() as int) =~= rest);
}

} // verus!
