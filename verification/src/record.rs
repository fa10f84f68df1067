//! The records of the log: one mutation each, written as one document.

use vstd::prelude::*;
use vstd::utf8::{
    decode_utf8, encode_utf8, encode_utf8_decode_utf8, encode_utf8_valid_utf8, valid_utf8,
};
use crate::codec::{
    decode_pair_document, decode_text_document, encode_pair_document, encode_text_document,
    frame, lemma_frame_of_document, lemma_frame_prefix, lemma_pair_document_len,
    lemma_parse_pair_document, lemma_parse_text_document,
    lemma_text_document_len, lemma_text_is_no_pair, pair_document, pair_document_len,
    parse_pair_document, parse_text_document, string_from_utf8, text_document,
    text_document_len, Frame, MAX_DOCUMENT_LEN,
};
use crate::error::KvsError;

verus! {

/// A single mutation written to the log.
#[derive(Clone, Debug, PartialEq, Eq)]
pub enum Transaction {
    /// The key now has the value. Its element name in the log is `Set`.
    Put(String, String),
    /// The key has no value any more.
    Remove(String),
}

/// A mutation as contracts see it: the same variants over character sequences.
pub enum Record {
    Put(Seq<char>, Seq<char>),
    Remove(Seq<char>),
}

impl Record {
    /// The key that the mutation is about.
    pub open spec fn key(self) -> Seq<char> {
        match self {
            Record::Put(key, _) => key,
            Record::Remove(key) => key,
        }
    }
}

impl View for Transaction {
    type V = Record;

    /// The same mutation over character sequences.
    open spec fn view(&self) -> Record {
        match self {
            Transaction::Put(key, value) => Record::Put(key@, value@),
            Transaction::Remove(key) => Record::Remove(key@),
        }
    }
}

/// The element name of a `Set` record: the letters `Set`.
pub open spec fn set_name() -> Seq<u8> {
    seq![0x53u8, 0x65u8, 0x74u8]
}

/// The element name of a `Remove` record: the letters `Remove`.
pub open spec fn remove_name() -> Seq<u8> {
    seq![0x52u8, 0x65u8, 0x6du8, 0x6fu8, 0x76u8, 0x65u8]
}

/// The bytes of a record: `{"Set": [key, value]}` or `{"Remove": key}`, the
/// texts in UTF-8.
pub open spec fn record_bytes(record: Record) -> Seq<u8> {
    match record {
        Record::Put(key, value) => pair_document(set_name(), encode_utf8(key), encode_utf8(value)),
        Record::Remove(key) => text_document(remove_name(), encode_utf8(key)),
    }
}

/// The length of `record_bytes(record)`.
pub open spec fn record_len(record: Record) -> nat {
    match record {
        Record::Put(key, value) => pair_document_len(
            set_name(),
            encode_utf8(key),
            encode_utf8(value),
        ),
        Record::Remove(key) => text_document_len(remove_name(), encode_utf8(key)),
    }
}

/// The record that a document holds, if it holds one.
pub open spec fn parse_record(doc: Seq<u8>) -> Option<Record> {
    match parse_pair_document(doc, set_name()) {
        Some((key, value)) => if valid_utf8(key) && valid_utf8(value) {
            Some(Record::Put(decode_utf8(key), decode_utf8(value)))
        } else {
            None
        },
        None => match parse_text_document(doc, remove_name()) {
            Some(key) => if valid_utf8(key) {
                Some(Record::Remove(decode_utf8(key)))
            } else {
                None
            },
            None => None,
        },
    }
}

/// The record at the front of `bytes` and its length, if a whole record
/// stands there.
#[verifier::opaque]
pub open spec fn first_record(bytes: Seq<u8>) -> Option<(Record, nat)> {
    match frame(bytes) {
        Frame::Complete(n) => match parse_record(bytes.subrange(0, n as int)) {
            Some(record) => Some((record, n as nat)),
            None => None,
        },
        _ => None,
    }
}

/// How long the bytes of a record are.
pub proof fn lemma_record_len(record: Record)
    ensures
        record_bytes(record).len() == record_len(record),
        record_len(record) >= 12,
{
    match record {
        Record::Put(key, value) => lemma_pair_document_len(
            set_name(),
            encode_utf8(key),
            encode_utf8(value),
        ),
        Record::Remove(key) => lemma_text_document_len(remove_name(), encode_utf8(key)),
    }
}

/// Decoding the bytes of a record gives the record back.
pub proof fn lemma_record_round_trip(record: Record)
    requires
        record_len(record) <= MAX_DOCUMENT_LEN,
    ensures
        parse_record(record_bytes(record)) == Some(record),
{
    match record {
        Record::Put(key, value) => {
            lemma_parse_pair_document(set_name(), encode_utf8(key), encode_utf8(value));
            encode_utf8_valid_utf8(key);
            encode_utf8_valid_utf8(value);
            encode_utf8_decode_utf8(key);
            encode_utf8_decode_utf8(value);
        },
        Record::Remove(key) => {
            lemma_text_is_no_pair(remove_name(), encode_utf8(key), set_name());
            lemma_parse_text_document(remove_name(), encode_utf8(key));
            encode_utf8_valid_utf8(key);
            encode_utf8_decode_utf8(key);
        },
    }
}

/// A record followed by anything is read back from the front, whole.
pub proof fn lemma_first_record_of_bytes(record: Record, rest: Seq<u8>)
    requires
        record_len(record) <= MAX_DOCUMENT_LEN,
    ensures
        first_record(record_bytes(record) + rest) == Some((record, record_len(record))),
{
    reveal(first_record);
    lemma_record_len(record);
    lemma_record_round_trip(record);
    vstd::bytes::lemma_auto_spec_u32_to_from_le_bytes();
    let doc = record_bytes(record);
    match record {
        Record::Put(key, value) => {
            let body = seq![0x04u8] + set_name() + seq![0u8] + crate::codec::document(
                crate::codec::text_element(crate::codec::first_name(), encode_utf8(key))
                    + crate::codec::text_element(crate::codec::second_name(), encode_utf8(value)),
            );
            assert(doc == crate::codec::document(body));
            lemma_frame_of_document(body, rest);
        },
        Record::Remove(key) => {
            let body = crate::codec::text_element(remove_name(), encode_utf8(key));
            assert(doc == crate::codec::document(body));
            lemma_frame_of_document(body, rest);
        },
    }
}

/// What follows a whole record does not change what is read from the front.
pub proof fn lemma_first_record_prefix(bytes: Seq<u8>, rest: Seq<u8>)
    requires
        first_record(bytes) is Some,
    ensures
        first_record(bytes + rest) == first_record(bytes),
{
    reveal(first_record);
    lemma_frame_prefix(bytes, rest);
}

impl Transaction {
    /// The record's bytes; `TooLarge` where they would be more than
    /// `MAX_DOCUMENT_LEN`.
    pub fn to_bytes(&self) -> (out: Result<Vec<u8>, KvsError>)
        ensures
            out is Ok <==> record_len(self@) <= MAX_DOCUMENT_LEN,
            out matches Ok(bytes) ==> bytes@ == record_bytes(self@),
            out matches Err(e) ==> e == KvsError::TooLarge,
    {
        let encoded = match self {
            Transaction::Put(key, value) => {
                let name: [u8; 3] = [0x53u8, 0x65u8, 0x74u8];
                assert(name@ =~= set_name());
                encode_pair_document(
                    name.as_slice(),
                    key.as_str().as_bytes(),
                    value.as_str().as_bytes(),
                )
            },
            Transaction::Remove(key) => {
                let name: [u8; 6] = [0x52u8, 0x65u8, 0x6du8, 0x6fu8, 0x76u8, 0x65u8];
                assert(name@ =~= remove_name());
                encode_text_document(name.as_slice(), key.as_str().as_bytes())
            },
        };
        match encoded {
            Some(bytes) => Ok(bytes),
            None => Err(KvsError::TooLarge),
        }
    }

    /// The record that `bytes` hold; `Decode` where they are not exactly the
    /// bytes of one record.
    pub fn from_bytes(bytes: &[u8]) -> (out: Result<Transaction, KvsError>)
        ensures
            match parse_record(bytes@) {
                Some(record) => out matches Ok(t) && t@ == record,
                None => out == Err::<Transaction, KvsError>(KvsError::Decode),
            },
    {
        let set: [u8; 3] = [0x53u8, 0x65u8, 0x74u8];
        assert(set@ =~= set_name());
        match decode_pair_document(bytes, set.as_slice()) {
            Some((key, value)) => {
                match string_from_utf8(key) {
                    Some(key) => match string_from_utf8(value) {
                        Some(value) => Ok(Transaction::Put(key, value)),
                        None => Err(KvsError::Decode),
                    },
                    None => Err(KvsError::Decode),
                }
            },
            None => {
                let remove: [u8; 6] = [0x52u8, 0x65u8, 0x6du8, 0x6fu8, 0x76u8, 0x65u8];
                assert(remove@ =~= remove_name());
                match decode_text_document(bytes, remove.as_slice()) {
                    Some(key) => match string_from_utf8(key) {
                        Some(key) => Ok(Transaction::Remove(key)),
                        None => Err(KvsError::Decode),
                    },
                    None => Err(KvsError::Decode),
                }
            },
        }
    }
}

} // verus!
