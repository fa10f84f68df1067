//! The byte layout of records and messages.
//!
//! Every record and every message is one self-delimiting document: a 32-bit
//! little-endian length that counts the whole document, the document's single
//! element, and a terminating zero byte. The element is either a text (the
//! tag `0x02`) or a pair of texts held in a nested document (the tag `0x04`).
//! The element's name tells the variants of a record or a message apart.
//! This is the layout of a BSON document with one element, so that the bytes
//! can be read and written by any BSON library.

use vstd::prelude::*;
use vstd::bytes::{
    lemma_auto_spec_u32_to_from_le_bytes, spec_u32_from_le_bytes, spec_u32_to_le_bytes,
    u32_from_le_bytes, u32_to_le_bytes,
};
use vstd::slice::{slice_subrange, slice_to_vec};
use vstd::utf8::{decode_utf8, valid_utf8};

verus! {

/// The largest document, in bytes, that the layout can describe.
pub const MAX_DOCUMENT_LEN: usize = 0x7fff_ffff;

/// The four bytes of a length field.
pub open spec fn length_field(n: nat) -> Seq<u8> {
    spec_u32_to_le_bytes(n as u32)
}

/// A text value: its length counting the terminator, the text, a zero byte.
pub open spec fn string_value(text: Seq<u8>) -> Seq<u8> {
    length_field(text.len() + 1) + text + seq![0u8]
}

/// An element that holds a text under a name.
pub open spec fn text_element(name: Seq<u8>, text: Seq<u8>) -> Seq<u8> {
    seq![0x02u8] + name + seq![0u8] + string_value(text)
}

/// A document around the given elements.
pub open spec fn document(body: Seq<u8>) -> Seq<u8> {
    length_field(body.len() + 5) + body + seq![0u8]
}

/// The document `{name: text}`.
pub open spec fn text_document(name: Seq<u8>, text: Seq<u8>) -> Seq<u8> {
    document(text_element(name, text))
}

/// The element name of the first member of a pair: the digit `0`.
pub open spec fn first_name() -> Seq<u8> {
    seq![0x30u8]
}

/// The element name of the second member of a pair: the digit `1`.
pub open spec fn second_name() -> Seq<u8> {
    seq![0x31u8]
}

/// The document `{name: [first, second]}`.
pub open spec fn pair_document(name: Seq<u8>, first: Seq<u8>, second: Seq<u8>) -> Seq<u8> {
    document(
        seq![0x04u8] + name + seq![0u8] + document(
            text_element(first_name(), first) + text_element(second_name(), second),
        ),
    )
}

/// The length of `text_document(name, text)`.
pub open spec fn text_document_len(name: Seq<u8>, text: Seq<u8>) -> nat {
    name.len() + text.len() + 12
}

/// The length of `pair_document(name, first, second)`.
pub open spec fn pair_document_len(name: Seq<u8>, first: Seq<u8>, second: Seq<u8>) -> nat {
    name.len() + first.len() + second.len() + 28
}

/// How long a text document is.
pub proof fn lemma_text_document_len(name: Seq<u8>, text: Seq<u8>)
    ensures
        text_document(name, text).len() == text_document_len(name, text),
{
    lemma_auto_spec_u32_to_from_le_bytes();
}

/// How long a pair document is.
pub proof fn lemma_pair_document_len(name: Seq<u8>, first: Seq<u8>, second: Seq<u8>)
    ensures
        pair_document(name, first, second).len() == pair_document_len(name, first, second),
{
    lemma_auto_spec_u32_to_from_le_bytes();
}

/// Appends `src` to `out`.
pub fn append_bytes(out: &mut Vec<u8>, src: &[u8])
    ensures
        final(out)@ == old(out)@ + src@,
{
    let mut i: usize = 0;
    while i < src.len()
        invariant
            i <= src.len(),
            out@ == old(out)@ + src@.subrange(0, i as int),
        decreases src.len() - i,
    {
        out.push(src[i]);
        i = i + 1;
        assert(out@ =~= old(out)@ + src@.subrange(0, i as int));
    }
    assert(src@.subrange(0, i as int) =~= src@);
}

/// Appends the length field for `n` to `out`.
fn append_length(out: &mut Vec<u8>, n: usize)
    requires
        n <= MAX_DOCUMENT_LEN,
    ensures
        final(out)@ == old(out)@ + length_field(n as nat),
{
    let field = u32_to_le_bytes(n as u32);
    append_bytes(out, field.as_slice());
}

/// Appends `text_element(name, text)` to `out`.
fn append_text_element(out: &mut Vec<u8>, name: &[u8], text: &[u8])
    requires
        text.len() < MAX_DOCUMENT_LEN,
    ensures
        final(out)@ == old(out)@ + text_element(name@, text@),
{
    out.push(0x02u8);
    append_bytes(out, name);
    out.push(0u8);
    append_length(out, text.len() + 1);
    append_bytes(out, text);
    out.push(0u8);
    assert(out@ =~= old(out)@ + text_element(name@, text@));
}

/// Whether `name.len() + sizes + extra` stays within the largest document.
fn fits(name: usize, first: usize, second: usize, extra: usize) -> (ok: bool)
    requires
        extra <= 64,
    ensures
        ok == (name + first + second + extra <= MAX_DOCUMENT_LEN),
{
    name <= MAX_DOCUMENT_LEN && first <= MAX_DOCUMENT_LEN - name && second <= MAX_DOCUMENT_LEN
        - name - first && extra <= MAX_DOCUMENT_LEN - name - first - second
}

/// Writes the document `{name: text}`, or nothing where it would be longer
/// than `MAX_DOCUMENT_LEN`.
pub fn encode_text_document(name: &[u8], text: &[u8]) -> (out: Option<Vec<u8>>)
    ensures
        out is Some <==> text_document_len(name@, text@) <= MAX_DOCUMENT_LEN,
        out matches Some(bytes) ==> bytes@ == text_document(name@, text@),
{
    if !fits(name.len(), text.len(), 0, 12) {
        return None;
    }
    let mut bytes: Vec<u8> = Vec::new();
    append_length(&mut bytes, name.len() + text.len() + 12);
    append_text_element(&mut bytes, name, text);
    bytes.push(0u8);
    proof {
        lemma_auto_spec_u32_to_from_le_bytes();
        assert(text_element(name@, text@).len() == name@.len() + text@.len() + 7);
        assert(bytes@ =~= text_document(name@, text@));
    }
    Some(bytes)
}

/// Writes the document `{name: [first, second]}`, or nothing where it would be
/// longer than `MAX_DOCUMENT_LEN`.
pub fn encode_pair_document(name: &[u8], first: &[u8], second: &[u8]) -> (out: Option<Vec<u8>>)
    ensures
        out is Some <==> pair_document_len(name@, first@, second@) <= MAX_DOCUMENT_LEN,
        out matches Some(bytes) ==> bytes@ == pair_document(name@, first@, second@),
{
    if !fits(name.len(), first.len(), second.len(), 28) {
        return None;
    }
    let mut bytes: Vec<u8> = Vec::new();
    append_length(&mut bytes, name.len() + first.len() + second.len() + 28);
    bytes.push(0x04u8);
    append_bytes(&mut bytes, name);
    bytes.push(0u8);
    append_length(&mut bytes, first.len() + second.len() + 21);
    let ghost head = bytes@;
    let zero: [u8; 1] = [0x30u8];
    let one: [u8; 1] = [0x31u8];
    append_text_element(&mut bytes, zero.as_slice(), first);
    append_text_element(&mut bytes, one.as_slice(), second);
    bytes.push(0u8);
    bytes.push(0u8);
    proof {
        lemma_auto_spec_u32_to_from_le_bytes();
        assert(zero@ =~= first_name());
        assert(one@ =~= second_name());
        let inner = text_element(first_name(), first@) + text_element(second_name(), second@);
        assert(inner.len() == first@.len() + second@.len() + 16);
        assert(bytes@ =~= pair_document(name@, first@, second@));
    }
    Some(bytes)
}

/// Whether two byte strings are equal.
pub fn bytes_equal(a: &[u8], b: &[u8]) -> (same: bool)
    ensures
        same == (a@ == b@),
{
    if a.len() != b.len() {
        return false;
    }
    let mut i: usize = 0;
    while i < a.len()
        invariant
            i <= a.len(),
            a.len() == b.len(),
            a@.subrange(0, i as int) == b@.subrange(0, i as int),
        decreases a.len() - i,
    {
        if a[i] != b[i] {
            return false;
        }
        i = i + 1;
        assert(a@.subrange(0, i as int) =~= a@.subrange(0, i - 1).push(a@[i - 1]));
        assert(b@.subrange(0, i as int) =~= b@.subrange(0, i - 1).push(b@[i - 1]));
    }
    assert(a@ =~= a@.subrange(0, i as int));
    assert(b@ =~= b@.subrange(0, i as int));
    true
}

/// What the front of a byte string holds.
#[derive(Clone, Copy, Debug, PartialEq, Eq, Structural)]
pub enum Frame {
    /// A whole document of this many bytes.
    Complete(usize),
    /// The beginning of a document; more bytes are needed.
    Incomplete,
    /// Bytes that begin no document.
    Malformed,
}

/// The length that the first four bytes declare.
pub open spec fn declared_len(bytes: Seq<u8>) -> nat {
    spec_u32_from_le_bytes(bytes.subrange(0, 4)) as nat
}

/// What the front of `bytes` holds: a document is complete when its declared
/// length is at least 5 and at most `MAX_DOCUMENT_LEN`, the bytes reach that
/// far, and its last byte is zero.
pub open spec fn frame(bytes: Seq<u8>) -> Frame {
    if bytes.len() < 4 {
        Frame::Incomplete
    } else if declared_len(bytes) < 5 || declared_len(bytes) > MAX_DOCUMENT_LEN {
        Frame::Malformed
    } else if bytes.len() < declared_len(bytes) {
        Frame::Incomplete
    } else if bytes[declared_len(bytes) - 1] != 0 {
        Frame::Malformed
    } else {
        Frame::Complete(declared_len(bytes) as usize)
    }
}

/// Looks for a document at the front of `bytes`.
pub fn scan_frame(bytes: &[u8]) -> (found: Frame)
    ensures
        found == frame(bytes@),
{
    if bytes.len() < 4 {
        return Frame::Incomplete;
    }
    let declared = u32_from_le_bytes(slice_subrange(bytes, 0, 4));
    if declared < 5 || declared > 0x7fff_ffff {
        return Frame::Malformed;
    }
    let n = declared as usize;
    if bytes.len() < n {
        return Frame::Incomplete;
    }
    if bytes[n - 1] != 0 {
        return Frame::Malformed;
    }
    Frame::Complete(n)
}

/// A document followed by anything is found whole.
pub proof fn lemma_frame_of_document(body: Seq<u8>, rest: Seq<u8>)
    requires
        body.len() + 5 <= MAX_DOCUMENT_LEN,
    ensures
        frame(document(body) + rest) == Frame::Complete((body.len() + 5) as usize),
        document(body).len() == body.len() + 5,
        (document(body) + rest).subrange(0, body.len() as int + 5) == document(body),
{
    lemma_auto_spec_u32_to_from_le_bytes();
    let doc = document(body);
    let all = doc + rest;
    let n = (body.len() + 5) as u32;
    assert(all.subrange(0, 4) =~= spec_u32_to_le_bytes(n));
    assert(all.subrange(0, body.len() as int + 5) =~= doc);
}

/// What follows a complete document does not change what is found.
pub proof fn lemma_frame_prefix(bytes: Seq<u8>, rest: Seq<u8>)
    requires
        frame(bytes) is Complete,
    ensures
        frame(bytes + rest) == frame(bytes),
        (bytes + rest).subrange(0, frame(bytes)->Complete_0 as int) == bytes.subrange(
            0,
            frame(bytes)->Complete_0 as int,
        ),
{
    assert((bytes + rest).subrange(0, 4) =~= bytes.subrange(0, 4));
    let n = frame(bytes)->Complete_0 as int;
    assert((bytes + rest).subrange(0, n) =~= bytes.subrange(0, n));
}

/// The text of the document `{name: text}`: `doc` is read as such a document
/// when it is, byte for byte, the layout of the text found at the text's place.
pub open spec fn parse_text_document(doc: Seq<u8>, name: Seq<u8>) -> Option<Seq<u8>> {
    if name.len() + 12 <= doc.len() <= MAX_DOCUMENT_LEN {
        let text = doc.subrange(name.len() as int + 10, doc.len() - 2);
        if doc == text_document(name, text) {
            Some(text)
        } else {
            None
        }
    } else {
        None
    }
}

/// The length that the first member of a pair declares, less the terminator.
pub open spec fn first_member_len(doc: Seq<u8>, name: Seq<u8>) -> int {
    spec_u32_from_le_bytes(doc.subrange(name.len() as int + 13, name.len() as int + 17)) - 1
}

/// The two texts of the document `{name: [first, second]}`: `doc` is read as
/// such a document when it is, byte for byte, the layout of the two texts
/// found at their places.
pub open spec fn parse_pair_document(doc: Seq<u8>, name: Seq<u8>) -> Option<(Seq<u8>, Seq<u8>)> {
    if name.len() + 28 <= doc.len() <= MAX_DOCUMENT_LEN {
        let first_len = first_member_len(doc, name);
        if 0 <= first_len && name.len() + first_len + 28 <= doc.len() {
            let first = doc.subrange(name.len() as int + 17, name.len() as int + 17 + first_len);
            let second = doc.subrange(name.len() as int + first_len + 25, doc.len() - 3);
            if doc == pair_document(name, first, second) {
                Some((first, second))
            } else {
                None
            }
        } else {
            None
        }
    } else {
        None
    }
}

/// Reads `doc` as the document `{name: text}` and gives the text.
pub fn decode_text_document(doc: &[u8], name: &[u8]) -> (out: Option<Vec<u8>>)
    ensures
        out is Some <==> parse_text_document(doc@, name@) is Some,
        out matches Some(text) ==> parse_text_document(doc@, name@) == Some(text@),
{
    if doc.len() > MAX_DOCUMENT_LEN || name.len() > doc.len() || doc.len() - name.len() < 12 {
        return None;
    }
    let text = slice_subrange(doc, name.len() + 10, doc.len() - 2);
    match encode_text_document(name, text) {
        Some(expected) => {
            if bytes_equal(expected.as_slice(), doc) {
                Some(slice_to_vec(text))
            } else {
                None
            }
        },
        None => None,
    }
}

/// Reads `doc` as the document `{name: [first, second]}` and gives the texts.
pub fn decode_pair_document(doc: &[u8], name: &[u8]) -> (out: Option<(Vec<u8>, Vec<u8>)>)
    ensures
        out is Some <==> parse_pair_document(doc@, name@) is Some,
        out matches Some(pair) ==> parse_pair_document(doc@, name@) == Some((pair.0@, pair.1@)),
{
    if doc.len() > MAX_DOCUMENT_LEN || name.len() > doc.len() || doc.len() - name.len() < 28 {
        return None;
    }
    let at = name.len() + 13;
    let declared = u32_from_le_bytes(slice_subrange(doc, at, at + 4));
    if declared < 1 {
        return None;
    }
    let first_len = (declared - 1) as usize;
    if first_len > doc.len() - name.len() - 28 {
        return None;
    }
    let first = slice_subrange(doc, at + 4, at + 4 + first_len);
    let second = slice_subrange(doc, name.len() + first_len + 25, doc.len() - 3);
    match encode_pair_document(name, first, second) {
        Some(expected) => {
            if bytes_equal(expected.as_slice(), doc) {
                Some((slice_to_vec(first), slice_to_vec(second)))
            } else {
                None
            }
        },
        None => None,
    }
}

/// A text document is read back as its text.
pub proof fn lemma_parse_text_document(name: Seq<u8>, text: Seq<u8>)
    requires
        text_document_len(name, text) <= MAX_DOCUMENT_LEN,
    ensures
        parse_text_document(text_document(name, text), name) == Some(text),
{
    lemma_auto_spec_u32_to_from_le_bytes();
    let doc = text_document(name, text);
    assert(doc.subrange(name.len() as int + 10, doc.len() - 2) =~= text);
}

/// A pair document is read back as its two texts.
pub proof fn lemma_parse_pair_document(name: Seq<u8>, first: Seq<u8>, second: Seq<u8>)
    requires
        pair_document_len(name, first, second) <= MAX_DOCUMENT_LEN,
    ensures
        parse_pair_document(pair_document(name, first, second), name) == Some((first, second)),
{
    lemma_auto_spec_u32_to_from_le_bytes();
    let doc = pair_document(name, first, second);
    assert(doc.len() == name.len() + first.len() + second.len() + 28);
    assert(doc.subrange(name.len() as int + 13, name.len() as int + 17) =~= length_field(first.len() + 1));
    assert(first_member_len(doc, name) == first.len());
    assert(doc.subrange(name.len() as int + 17, name.len() as int + 17 + first.len()) =~= first);
    assert(doc.subrange(name.len() as int + first.len() + 25, doc.len() - 3) =~= second);
}

/// The byte that tells a text document from a pair document.
pub proof fn lemma_document_tag(name: Seq<u8>, first: Seq<u8>, second: Seq<u8>)
    ensures
        text_document(name, first).len() > 5,
        text_document(name, first)[4] == 0x02,
        pair_document(name, first, second).len() > 5,
        pair_document(name, first, second)[4] == 0x04,
{
    lemma_auto_spec_u32_to_from_le_bytes();
}

/// No text document is read as a pair document.
pub proof fn lemma_text_is_no_pair(name: Seq<u8>, text: Seq<u8>, other: Seq<u8>)
    ensures
        parse_pair_document(text_document(name, text), other) is None,
{
    let doc = text_document(name, text);
    lemma_document_tag(name, text, text);
    if other.len() + 28 <= doc.len() {
        let first_len = first_member_len(doc, other);
        if 0 <= first_len && other.len() + first_len + 28 <= doc.len() {
            let first = doc.subrange(other.len() as int + 17, other.len() as int + 17 + first_len);
            let second = doc.subrange(other.len() as int + first_len + 25, doc.len() - 3);
            lemma_document_tag(other, first, second);
        }
    }
}

/// A text document is not read under a name that begins with another byte.
pub proof fn lemma_text_under_other_name(name: Seq<u8>, text: Seq<u8>, other: Seq<u8>)
    requires
        name.len() > 0,
        other.len() > 0,
        name[0] != other[0],
    ensures
        parse_text_document(text_document(name, text), other) is None,
{
    lemma_auto_spec_u32_to_from_le_bytes();
    let doc = text_document(name, text);
    if other.len() + 12 <= doc.len() {
        let found = doc.subrange(other.len() as int + 10, doc.len() - 2);
        assert(doc[5] == name[0]);
        assert(text_document(other, found)[5] == other[0]);
    }
}

/// A text document followed by anything is found whole.
pub proof fn lemma_frame_of_text_document(name: Seq<u8>, text: Seq<u8>, rest: Seq<u8>)
    requires
        text_document_len(name, text) <= MAX_DOCUMENT_LEN,
    ensures
        frame(text_document(name, text) + rest) == Frame::Complete(
            text_document_len(name, text) as usize,
        ),
        (text_document(name, text) + rest).subrange(0, text_document_len(name, text) as int)
            == text_document(name, text),
{
    lemma_text_document_len(name, text);
    lemma_auto_spec_u32_to_from_le_bytes();
    lemma_frame_of_document(text_element(name, text), rest);
}

/// A pair document followed by anything is found whole.
pub proof fn lemma_frame_of_pair_document(
    name: Seq<u8>,
    first: Seq<u8>,
    second: Seq<u8>,
    rest: Seq<u8>,
)
    requires
        pair_document_len(name, first, second) <= MAX_DOCUMENT_LEN,
    ensures
        frame(pair_document(name, first, second) + rest) == Frame::Complete(
            pair_document_len(name, first, second) as usize,
        ),
        (pair_document(name, first, second) + rest).subrange(
            0,
            pair_document_len(name, first, second) as int,
        ) == pair_document(name, first, second),
{
    lemma_pair_document_len(name, first, second);
    lemma_auto_spec_u32_to_from_le_bytes();
    let body = seq![0x04u8] + name + seq![0u8] + document(
        text_element(first_name(), first) + text_element(second_name(), second),
    );
    lemma_frame_of_document(body, rest);
}

/// `String::from_utf8`: the text that `bytes` hold, where they are valid
/// UTF-8, and nothing where they are not.
#[verifier::external_body]
pub(crate) fn string_from_utf8(bytes: Vec<u8>) -> (out: Option<String>)
    ensures
        out is Some <==> valid_utf8(bytes@),
        out matches Some(text) ==> text@ == decode_utf8(bytes@),
{
    String::from_utf8(bytes).ok()
}

} // verus!
