//! The wire protocol between nodes: length-prefixed frames, and the plain-text
//! protocol of the direct fetch.
//!
//! A frame is a length of four bytes, big-endian, and that many bytes of
//! payload. A direct fetch is the text `GET:` and a key; its answer is the text
//! `FOUND:` and the value, or the text `NOT_FOUND`.

use vstd::prelude::*;
use vstd::string::StrSliceExecFns;
use vstd::string::StringExecFns;

verus! {

/// The longest payload that a frame can carry.
pub const MAX_PAYLOAD: usize = 0xffff_ffff;

/// The four bytes that announce a payload of `length` bytes.
pub open spec fn length_prefix(length: nat) -> Seq<u8> {
    seq![
        (length / 0x100_0000 % 0x100) as u8,
        (length / 0x1_0000 % 0x100) as u8,
        (length / 0x100 % 0x100) as u8,
        (length % 0x100) as u8,
    ]
}

/// The length that the first four bytes announce.
pub open spec fn announced_length(bytes: Seq<u8>) -> nat {
    (bytes[0] * 0x100_0000 + bytes[1] * 0x1_0000 + bytes[2] * 0x100 + bytes[3]) as nat
}

/// A payload as it travels: its length, then itself.
pub open spec fn framed(payload: Seq<u8>) -> Seq<u8> {
    length_prefix(payload.len()) + payload
}

/// The payload of the frame that `bytes` starts with, if a whole frame is there.
pub open spec fn unframed(bytes: Seq<u8>) -> Option<Seq<u8>> {
    if bytes.len() >= 4 && bytes.len() - 4 >= announced_length(bytes) {
        Some(bytes.subrange(4, 4 + announced_length(bytes) as int))
    } else {
        None
    }
}

/// Puts a payload into a frame. A payload of more than `MAX_PAYLOAD` bytes has
/// no frame.
pub fn frame(payload: &[u8]) -> (bytes: Option<Vec<u8>>)
    ensures
        match bytes {
            Some(b) => payload@.len() <= MAX_PAYLOAD && b@ == framed(payload@),
            None => payload@.len() > MAX_PAYLOAD,
        },
{
    let length = payload.len();
    if length > MAX_PAYLOAD {
        return None;
    }
    let mut bytes: Vec<u8> = Vec::new();
    bytes.push((length / 0x100_0000 % 0x100) as u8);
    bytes.push((length / 0x1_0000 % 0x100) as u8);
    bytes.push((length / 0x100 % 0x100) as u8);
    bytes.push((length % 0x100) as u8);
    assert(bytes@ =~= length_prefix(length as nat));
    let mut i: usize = 0;
    while i < length
        invariant
            length == payload@.len(),
            i <= length,
            bytes@ == length_prefix(length as nat) + payload@.subrange(0, i as int),
        decreases length - i,
    {
        bytes.push(payload[i]);
        assert(bytes@ =~= length_prefix(length as nat) + payload@.subrange(0, i + 1));
        i += 1;
    }
    assert(payload@.subrange(0, length as int) =~= payload@);
    Some(bytes)
}

/// The length that a frame's first four bytes announce; nothing where fewer
/// than four bytes are there.
pub fn payload_length(header: &[u8]) -> (length: Option<u32>)
    ensures
        match length {
            Some(n) => header@.len() >= 4 && n == announced_length(header@),
            None => header@.len() < 4,
        },
{
    if header.len() < 4 {
        return None;
    }
    let a: u32 = header[0] as u32;
    let b: u32 = header[1] as u32;
    let c: u32 = header[2] as u32;
    let d: u32 = header[3] as u32;
    Some(a * 0x100_0000 + b * 0x1_0000 + c * 0x100 + d)
}

/// Takes the payload out of the frame that `bytes` starts with; nothing where
/// the frame is not whole.
pub fn unframe(bytes: &[u8]) -> (payload: Option<Vec<u8>>)
    ensures
        match payload {
            Some(p) => unframed(bytes@) == Some(p@),
            None => unframed(bytes@).is_none(),
        },
{
    let length = match payload_length(bytes) {
        Some(n) => n as usize,
        None => {
            return None;
        },
    };
    let total = bytes.len();
    if total - 4 < length {
        return None;
    }
    let mut payload: Vec<u8> = Vec::new();
    let mut i: usize = 0;
    while i < length
        invariant
            total == bytes@.len(),
            total >= 4,
            total - 4 >= length,
            i <= length,
            payload@ == bytes@.subrange(4, 4 + i),
        decreases length - i,
    {
        payload.push(bytes[4 + i]);
        assert(payload@ =~= bytes@.subrange(4, 4 + i + 1));
        i += 1;
    }
    Some(payload)
}

/// The four digits of a length to the base 256 make up the length.
pub proof fn lemma_big_endian(length: nat)
    requires
        length <= MAX_PAYLOAD,
    ensures
        (length / 0x100_0000 % 0x100) * 0x100_0000 + (length / 0x1_0000 % 0x100) * 0x1_0000 + (
        length / 0x100 % 0x100) * 0x100 + length % 0x100 == length,
{
    let low = length % 0x100;
    let rest = length / 0x100;
    assert(length == rest * 0x100 + low);
    let second = rest % 0x100;
    let rest2 = rest / 0x100;
    assert(rest == rest2 * 0x100 + second);
    let third = rest2 % 0x100;
    let top = rest2 / 0x100;
    assert(rest2 == top * 0x100 + third);
    assert(top < 0x100);
    assert(length / 0x1_0000 == rest2);
    assert(length / 0x100_0000 == top);
}

/// The length prefix announces the length that it was made of.
pub proof fn lemma_announced(length: nat, tail: Seq<u8>)
    requires
        length <= MAX_PAYLOAD,
    ensures
        announced_length(length_prefix(length) + tail) == length,
{
    lemma_big_endian(length);
    let prefix = length_prefix(length);
    let bytes = prefix + tail;
    assert(bytes[0] == prefix[0] && bytes[1] == prefix[1] && bytes[2] == prefix[2] && bytes[3]
        == prefix[3]);
    assert(prefix[0] == length / 0x100_0000 % 0x100);
    assert(prefix[1] == length / 0x1_0000 % 0x100);
    assert(prefix[2] == length / 0x100 % 0x100);
    assert(prefix[3] == length % 0x100);
}

/// What was put into a frame comes out of it, whatever follows the frame.
pub proof fn law_frame_round_trip(payload: Seq<u8>, rest: Seq<u8>)
    requires
        payload.len() <= MAX_PAYLOAD,
    ensures
        unframed(framed(payload)) == Some(payload),
        unframed(framed(payload) + rest) == Some(payload),
{
    let length = payload.len() as int;
    lemma_announced(payload.len(), payload);
    lemma_announced(payload.len(), payload + rest);
    assert(framed(payload) + rest =~= length_prefix(payload.len()) + (payload + rest));
    assert(framed(payload).subrange(4, 4 + length) =~= payload);
    assert((framed(payload) + rest).subrange(4, 4 + length) =~= payload);
}

/// The marker that opens a direct fetch: the text `GET:`.
pub open spec fn fetch_marker() -> Seq<u8> {
    seq![0x47u8, 0x45u8, 0x54u8, 0x3au8]
}

/// Whether a connection opens with the marker of a direct fetch. Any other
/// opening is the start of a frame.
pub fn is_direct_fetch(opening: &[u8]) -> (direct: bool)
    ensures
        direct == (opening@.len() >= 4 && opening@.subrange(0, 4) == fetch_marker()),
{
    if opening.len() < 4 {
        return false;
    }
    let direct = opening[0] == 0x47 && opening[1] == 0x45 && opening[2] == 0x54 && opening[3]
        == 0x3a;
    proof {
        if direct {
            assert(opening@.subrange(0, 4) =~= fetch_marker());
        } else {
            let head = opening@.subrange(0, 4);
            assert(head[0] == opening@[0] && head[1] == opening@[1] && head[2] == opening@[2]
                && head[3] == opening@[3]);
        }
    }
    direct
}

/// The text that opens a direct fetch.
pub open spec fn request_head() -> Seq<char> {
    seq!['G', 'E', 'T', ':']
}

/// The text that opens the answer to a direct fetch that found the key.
pub open spec fn found_head() -> Seq<char> {
    seq!['F', 'O', 'U', 'N', 'D', ':']
}

/// The answer to a direct fetch that did not find the key.
pub open spec fn not_found_text() -> Seq<char> {
    seq!['N', 'O', 'T', '_', 'F', 'O', 'U', 'N', 'D']
}

/// Whether `text` begins with `head`.
pub open spec fn begins_with(text: Seq<char>, head: Seq<char>) -> bool {
    text.len() >= head.len() && text.subrange(0, head.len() as int) == head
}

/// The request of a direct fetch for `key`.
pub fn fetch_request(key: &str) -> (request: String)
    ensures
        request@ == request_head() + key@,
{
    proof {
        reveal_strlit("GET:");
    }
    let mut request = String::from_str("GET:");
    request.append(key);
    assert(request@ =~= request_head() + key@);
    request
}

/// The key that a direct fetch asks for; nothing where the request does not
/// open with `GET:`.
pub fn fetch_key(request: &str) -> (key: Option<String>)
    ensures
        match key {
            Some(k) => request@ == request_head() + k@,
            None => !begins_with(request@, request_head()),
        },
{
    let length = request.unicode_len();
    if length < 4 {
        return None;
    }
    if request.get_char(0) == 'G' && request.get_char(1) == 'E' && request.get_char(2) == 'T'
        && request.get_char(3) == ':' {
        let key = request.substring_char(4, length).to_owned();
        assert(request@ =~= request_head() + key@);
        Some(key)
    } else {
        proof {
            let head = request@.subrange(0, 4);
            assert(head[0] == request@[0] && head[1] == request@[1] && head[2] == request@[2]
                && head[3] == request@[3]);
        }
        None
    }
}

/// The answer to a direct fetch.
pub fn fetch_response(value: Option<String>) -> (response: String)
    ensures
        response@ == match value {
            Some(v) => found_head() + v@,
            None => not_found_text(),
        },
{
    proof {
        reveal_strlit("FOUND:");
        reveal_strlit("NOT_FOUND");
    }
    match value {
        Some(v) => {
            let mut response = String::from_str("FOUND:");
            response.append(v.as_str());
            assert(response@ =~= found_head() + v@);
            response
        },
        None => {
            let response = String::from_str("NOT_FOUND");
            assert(response@ =~= not_found_text());
            response
        },
    }
}

/// What the answer to a direct fetch says.
#[derive(Debug, Clone)]
pub enum FetchReply {
    /// The key was found, with this value.
    Found(String),
    /// The key was not found.
    NotFound,
    /// The answer is none of the protocol.
    Invalid,
}

/// Reads the answer to a direct fetch.
pub fn parse_fetch_response(response: &str) -> (reply: FetchReply)
    ensures
        match reply {
            FetchReply::Found(v) => response@ == found_head() + v@,
            FetchReply::NotFound => response@ == not_found_text(),
            FetchReply::Invalid => !begins_with(response@, found_head()) && response@
                != not_found_text(),
        },
{
    let length = response.unicode_len();
    if length >= 6 && response.get_char(0) == 'F' && response.get_char(1) == 'O'
        && response.get_char(2) == 'U' && response.get_char(3) == 'N' && response.get_char(4) == 'D'
        && response.get_char(5) == ':' {
        let value = response.substring_char(6, length).to_owned();
        assert(response@ =~= found_head() + value@);
        return FetchReply::Found(value);
    }
    proof {
        if length >= 6 {
            let head = response@.subrange(0, 6);
            assert(head[0] == response@[0] && head[1] == response@[1] && head[2] == response@[2]
                && head[3] == response@[3] && head[4] == response@[4] && head[5] == response@[5]);
        }
    }
    if length == 9 && response.get_char(0) == 'N' && response.get_char(1) == 'O'
        && response.get_char(2) == 'T' && response.get_char(3) == '_' && response.get_char(4) == 'F'
        && response.get_char(5) == 'O' && response.get_char(6) == 'U' && response.get_char(7) == 'N'
        && response.get_char(8) == 'D' {
        assert(response@ =~= not_found_text());
        FetchReply::NotFound
    } else {
        FetchReply::Invalid
    }
}

/// What a direct fetch should read back for a stored value or its absence.
pub open spec fn answered(value: Option<Seq<char>>) -> Seq<char> {
    match value {
        Some(v) => found_head() + v,
        None => not_found_text(),
    }
}

/// A found value reads back as itself and as nothing else, and `NOT_FOUND`
/// never reads as a found value.
pub proof fn law_fetch_answer_is_unambiguous(value: Seq<char>, other: Seq<char>)
    ensures
        found_head() + value == found_head() + other ==> value == other,
        found_head() + value != not_found_text(),
        !begins_with(not_found_text(), found_head()),
        begins_with(found_head() + value, found_head()),
{
    if found_head() + value == found_head() + other {
        assert((found_head() + value).len() == 6 + value.len());
        assert((found_head() + other).len() == 6 + other.len());
        assert((found_head() + value).subrange(6, 6 + value.len() as int) =~= value);
        assert((found_head() + other).subrange(6, 6 + other.len() as int) =~= other);
    }
    assert((found_head() + value)[0] == 'F');
    assert(not_found_text().subrange(0, 6)[0] == 'N');
    assert((found_head() + value).subrange(0, 6) =~= found_head());
}

} // verus!
