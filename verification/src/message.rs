//! The wire protocol: a closed set of messages, each sent as one frame of
//! fixed size.
//!
//! A message without fields is a string element that holds its name. A
//! message with fields is a map of one entry, from its name to the array
//! of its fields. The frame holds that encoding, then zeros up to the
//! frame size. A reader takes the first element and ignores what follows.

use crate::error::Error;
use crate::msgpack::{
    announced, header, lemma_announced_header, lemma_header_len, lemma_parse_packed_text,
    packed_text, parse_text, put_header, put_text, same_text, take_header, take_text, Kind,
    MAX_LEN,
};
use vstd::prelude::*;
use vstd::utf8::encode_utf8;

verus! {

/// The number of bytes of every frame.
pub const FRAME_SIZE: usize = 48;

/// A request, a response, or the liveness signal.
#[derive(Debug, Clone, PartialEq, Eq)]
pub enum Message {
    Heartbeat,
    Busy,
    Get { key: String },
    Put { key: String, value: String },
    Found { value: String },
    NotFound,
    DonePut,
}

/// A message as mathematics: the same variants, over sequences of
/// characters.
pub enum MessageView {
    Heartbeat,
    Busy,
    Get { key: Seq<char> },
    Put { key: Seq<char>, value: Seq<char> },
    Found { value: Seq<char> },
    NotFound,
    DonePut,
}

impl View for Message {
    type V = MessageView;

    open spec fn view(&self) -> MessageView {
        match self {
            Message::Heartbeat => MessageView::Heartbeat,
            Message::Busy => MessageView::Busy,
            Message::Get { key } => MessageView::Get { key: key@ },
            Message::Put { key, value } => MessageView::Put { key: key@, value: value@ },
            Message::Found { value } => MessageView::Found { value: value@ },
            Message::NotFound => MessageView::NotFound,
            Message::DonePut => MessageView::DonePut,
        }
    }
}

impl MessageView {
    /// Requests are what a client sends to open a connection.
    pub open spec fn is_request(self) -> bool {
        self is Get || self is Put
    }

    /// The name that stands for the variant on the wire.
    pub open spec fn name(self) -> Seq<char> {
        match self {
            MessageView::Heartbeat => "Heartbeat"@,
            MessageView::Busy => "Busy"@,
            MessageView::Get { .. } => "Get"@,
            MessageView::Put { .. } => "Put"@,
            MessageView::Found { .. } => "Found"@,
            MessageView::NotFound => "NotFound"@,
            MessageView::DonePut => "DonePut"@,
        }
    }
}

/// The front of a message with fields: a map of one entry, the name as
/// the entry's key, and the header of the array of `arity` fields.
pub open spec fn opening(name: Seq<char>, arity: nat) -> Seq<u8> {
    header(Kind::Assoc, 1) + packed_text(name) + header(Kind::Array, arity)
}

/// The encoding of a message, without the padding.
pub open spec fn payload(m: MessageView) -> Seq<u8> {
    match m {
        MessageView::Get { key } => opening(m.name(), 1) + packed_text(key),
        MessageView::Put { key, value } => opening(m.name(), 2) + packed_text(key) + packed_text(
            value,
        ),
        MessageView::Found { value } => opening(m.name(), 1) + packed_text(value),
        _ => packed_text(m.name()),
    }
}

/// Whether a message can be sent: its encoding is no longer than a frame.
pub open spec fn fits(m: MessageView) -> bool {
    payload(m).len() <= FRAME_SIZE
}

/// `n` zero bytes.
pub open spec fn zeros(n: nat) -> Seq<u8> {
    Seq::new(n, |i: int| 0u8)
}

/// The frame of a message that fits: its encoding, then zeros.
pub open spec fn frame_of(m: MessageView) -> Seq<u8>
    recommends
        fits(m),
{
    payload(m) + zeros((FRAME_SIZE - payload(m).len()) as nat)
}

/// The message without fields that goes by `name`.
pub open spec fn bare(name: Seq<char>) -> Option<MessageView> {
    if name == "Heartbeat"@ {
        Some(MessageView::Heartbeat)
    } else if name == "Busy"@ {
        Some(MessageView::Busy)
    } else if name == "NotFound"@ {
        Some(MessageView::NotFound)
    } else if name == "DonePut"@ {
        Some(MessageView::DonePut)
    } else {
        None
    }
}

/// The message that goes by `name` and has `arity` fields, which are the
/// string elements at the front of `b`.
pub open spec fn with_fields(name: Seq<char>, arity: nat, b: Seq<u8>) -> Option<MessageView> {
    if name == "Get"@ && arity == 1 {
        match parse_text(b) {
            Some((key, _)) => Some(MessageView::Get { key }),
            None => None,
        }
    } else if name == "Found"@ && arity == 1 {
        match parse_text(b) {
            Some((value, _)) => Some(MessageView::Found { value }),
            None => None,
        }
    } else if name == "Put"@ && arity == 2 {
        match parse_text(b) {
            Some((key, size)) => match parse_text(b.skip(size as int)) {
                Some((value, _)) => Some(MessageView::Put { key, value }),
                None => None,
            },
            None => None,
        }
    } else {
        None
    }
}

/// The message with fields whose encoding `b` begins with, if there is
/// one: a map of one entry, the name, the array header, the fields.
pub open spec fn parse_tagged(b: Seq<u8>) -> Option<MessageView> {
    match announced(b, Kind::Assoc) {
        Some((entries, at_name)) => match parse_text(b.skip(at_name as int)) {
            Some((name, size)) => match announced(b.skip((at_name + size) as int), Kind::Array) {
                Some((arity, head)) => if entries == 1 {
                    with_fields(name, arity, b.skip((at_name + size + head) as int))
                } else {
                    None
                },
                None => None,
            },
            None => None,
        },
        None => None,
    }
}

/// The message whose encoding `b` begins with, if there is one. Bytes
/// behind the encoding are not looked at.
pub open spec fn parse_message(b: Seq<u8>) -> Option<MessageView> {
    match parse_text(b) {
        Some((name, _)) => bare(name),
        None => parse_tagged(b),
    }
}

/// The names are short ASCII words, no two of them the same.
proof fn lemma_names()
    ensures
        encode_utf8("Heartbeat"@).len() == 9,
        encode_utf8("Busy"@).len() == 4,
        encode_utf8("Get"@).len() == 3,
        encode_utf8("Put"@).len() == 3,
        encode_utf8("Found"@).len() == 5,
        encode_utf8("NotFound"@).len() == 8,
        encode_utf8("DonePut"@).len() == 7,
        "Get"@ != "Put"@,
        "Get"@ != "Found"@,
        "Put"@ != "Found"@,
        "Heartbeat"@ != "Busy"@,
        "Heartbeat"@ != "NotFound"@,
        "Heartbeat"@ != "DonePut"@,
        "Busy"@ != "NotFound"@,
        "Busy"@ != "DonePut"@,
        "NotFound"@ != "DonePut"@,
{
    reveal_strlit("Heartbeat");
    reveal_strlit("Busy");
    reveal_strlit("Get");
    reveal_strlit("Put");
    reveal_strlit("Found");
    reveal_strlit("NotFound");
    reveal_strlit("DonePut");
    vstd::utf8::is_ascii_chars_encode_utf8("Heartbeat"@);
    vstd::utf8::is_ascii_chars_encode_utf8("Busy"@);
    vstd::utf8::is_ascii_chars_encode_utf8("Get"@);
    vstd::utf8::is_ascii_chars_encode_utf8("Put"@);
    vstd::utf8::is_ascii_chars_encode_utf8("Found"@);
    vstd::utf8::is_ascii_chars_encode_utf8("NotFound"@);
    vstd::utf8::is_ascii_chars_encode_utf8("DonePut"@);
    assert("Get"@[0] != "Put"@[0]);
}

/// Appends the front of a message with fields.
fn put_opening(out: &mut Vec<u8>, name: &str, arity: usize)
    requires
        encode_utf8(name@).len() <= MAX_LEN,
        arity <= MAX_LEN,
    ensures
        final(out)@ == old(out)@ + opening(name@, arity as nat),
{
    let ghost before = out@;
    put_header(out, Kind::Assoc, 1);
    put_text(out, name);
    put_header(out, Kind::Array, arity);
    assert(out@ =~= before + opening(name@, arity as nat));
}

/// Puts a message in a frame. Fails, with `Error::Encode`, exactly when
/// the message does not fit.
pub fn encode(msg: &Message) -> (r: Result<[u8; FRAME_SIZE], Error>)
    ensures
        match r {
            Ok(frame) => fits(msg@) && frame@ == frame_of(msg@),
            Err(e) => !fits(msg@) && e == Error::Encode,
        },
{
    proof {
        lemma_names();
    }
    let mut out: Vec<u8> = Vec::new();
    match msg {
        Message::Heartbeat => put_text(&mut out, "Heartbeat"),
        Message::Busy => put_text(&mut out, "Busy"),
        Message::NotFound => put_text(&mut out, "NotFound"),
        Message::DonePut => put_text(&mut out, "DonePut"),
        Message::Get { key } => {
            if key.as_str().as_bytes().len() > FRAME_SIZE {
                return Err(Error::Encode);
            }
            put_opening(&mut out, "Get", 1);
            put_text(&mut out, key.as_str());
        },
        Message::Found { value } => {
            if value.as_str().as_bytes().len() > FRAME_SIZE {
                return Err(Error::Encode);
            }
            put_opening(&mut out, "Found", 1);
            put_text(&mut out, value.as_str());
        },
        Message::Put { key, value } => {
            if key.as_str().as_bytes().len() > FRAME_SIZE {
                return Err(Error::Encode);
            }
            if value.as_str().as_bytes().len() > FRAME_SIZE {
                return Err(Error::Encode);
            }
            put_opening(&mut out, "Put", 2);
            put_text(&mut out, key.as_str());
            put_text(&mut out, value.as_str());
        },
    }
    assert(out@ =~= payload(msg@));
    if out.len() > FRAME_SIZE {
        return Err(Error::Encode);
    }
    let mut frame = [0u8; FRAME_SIZE];
    let mut i: usize = 0;
    while i < out.len()
        invariant
            i <= out@.len() <= FRAME_SIZE,
            forall|j: int| 0 <= j < i ==> frame@[j] == out@[j],
            forall|j: int| i <= j < FRAME_SIZE ==> frame@[j] == 0u8,
        decreases out@.len() - i,
    {
        frame[i] = out[i];
        i = i + 1;
    }
    assert(frame@ =~= frame_of(msg@));
    Ok(frame)
}

/// The message without fields that goes by `name`.
fn bare_message(name: &str) -> (r: Option<Message>)
    ensures
        match r {
            Some(m) => bare(name@) == Some(m@),
            None => bare(name@) is None,
        },
{
    if same_text(name, "Heartbeat") {
        Some(Message::Heartbeat)
    } else if same_text(name, "Busy") {
        Some(Message::Busy)
    } else if same_text(name, "NotFound") {
        Some(Message::NotFound)
    } else if same_text(name, "DonePut") {
        Some(Message::DonePut)
    } else {
        None
    }
}

/// The message that goes by `name` and has `arity` fields, read from `b`
/// at `pos`.
fn message_with_fields(name: &str, arity: usize, b: &[u8], pos: usize) -> (r: Option<Message>)
    requires
        pos <= b@.len(),
    ensures
        match r {
            Some(m) => with_fields(name@, arity as nat, b@.skip(pos as int)) == Some(m@),
            None => with_fields(name@, arity as nat, b@.skip(pos as int)) is None,
        },
{
    if same_text(name, "Get") && arity == 1 {
        match take_text(b, pos) {
            Some((key, _)) => Some(Message::Get { key }),
            None => None,
        }
    } else if same_text(name, "Found") && arity == 1 {
        match take_text(b, pos) {
            Some((value, _)) => Some(Message::Found { value }),
            None => None,
        }
    } else if same_text(name, "Put") && arity == 2 {
        match take_text(b, pos) {
            Some((key, next)) => {
                assert(b@.skip(pos as int).skip(next - pos) =~= b@.skip(next as int));
                match take_text(b, next) {
                    Some((value, _)) => Some(Message::Put { key, value }),
                    None => None,
                }
            },
            None => None,
        }
    } else {
        None
    }
}

/// Reads the message with fields that `b` begins with.
fn tagged_message(b: &[u8]) -> (r: Option<Message>)
    ensures
        match r {
            Some(m) => parse_tagged(b@) == Some(m@),
            None => parse_tagged(b@) is None,
        },
{
    assert(b@.skip(0) =~= b@);
    let (entries, at_name) = match take_header(b, 0, Kind::Assoc) {
        Some(h) => h,
        None => { return None; },
    };
    let (name, at_arity) = match take_text(b, at_name) {
        Some(t) => t,
        None => { return None; },
    };
    let (arity, at_fields) = match take_header(b, at_arity, Kind::Array) {
        Some(h) => h,
        None => { return None; },
    };
    if entries != 1 {
        return None;
    }
    message_with_fields(name.as_str(), arity, b, at_fields)
}

/// Reads the message that `b` begins with. Fails, with `Error::Decode`,
/// exactly when `b` does not begin with the encoding of a message.
pub fn decode_bytes(b: &[u8]) -> (r: Result<Message, Error>)
    ensures
        match r {
            Ok(m) => parse_message(b@) == Some(m@),
            Err(e) => parse_message(b@) is None && e == Error::Decode,
        },
{
    assert(b@.skip(0) =~= b@);
    let found = match take_text(b, 0) {
        Some((name, _)) => bare_message(name.as_str()),
        None => tagged_message(b),
    };
    match found {
        Some(m) => Ok(m),
        None => Err(Error::Decode),
    }
}

/// Reads the message in a frame. Fails, with `Error::Decode`, exactly
/// when the frame does not begin with the encoding of a message.
pub fn decode(frame: &[u8; FRAME_SIZE]) -> (r: Result<Message, Error>)
    ensures
        match r {
            Ok(m) => parse_message(frame@) == Some(m@),
            Err(e) => parse_message(frame@) is None && e == Error::Decode,
        },
{
    decode_bytes(frame.as_slice())
}

/// Reading a message with fields: after the front, what is left is
/// the fields. `tail` is the fields and whatever follows them.
proof fn lemma_parse_opening(name: Seq<char>, arity: nat, tail: Seq<u8>)
    requires
        encode_utf8(name).len() <= MAX_LEN,
        arity <= MAX_LEN,
    ensures
        parse_text(opening(name, arity) + tail) is None,
        parse_tagged(opening(name, arity) + tail) == with_fields(name, arity, tail),
{
    let h0 = header(Kind::Assoc, 1);
    let t = packed_text(name);
    let h1 = header(Kind::Array, arity);
    let b = opening(name, arity) + tail;
    lemma_header_len(Kind::Array, arity);
    assert(b =~= h0 + (t + h1 + tail));
    assert(b[0] == 0x81u8);
    lemma_announced_header(Kind::Assoc, 1, t + h1 + tail);
    assert(b.skip(1) =~= t + (h1 + tail));
    lemma_parse_packed_text(name, h1 + tail);
    assert(b.skip((1 + t.len()) as int) =~= h1 + tail);
    lemma_announced_header(Kind::Array, arity, tail);
    assert(b.skip((1 + t.len() + h1.len()) as int) =~= tail);
}

/// Round trip, whatever follows the encoding: a message that fits in a
/// frame is the one that is read from its encoding.
pub proof fn lemma_parse_payload(m: MessageView, rest: Seq<u8>)
    requires
        fits(m),
    ensures
        parse_message(payload(m) + rest) == Some(m),
{
    lemma_names();
    let b = payload(m) + rest;
    match m {
        MessageView::Get { key } => {
            let f = packed_text(key);
            assert(b =~= opening(m.name(), 1) + (f + rest));
            lemma_parse_opening(m.name(), 1, f + rest);
            lemma_parse_packed_text(key, rest);
        },
        MessageView::Found { value } => {
            let f = packed_text(value);
            assert(b =~= opening(m.name(), 1) + (f + rest));
            lemma_parse_opening(m.name(), 1, f + rest);
            lemma_parse_packed_text(value, rest);
        },
        MessageView::Put { key, value } => {
            let f = packed_text(key);
            let g = packed_text(value);
            assert(b =~= opening(m.name(), 2) + (f + (g + rest)));
            lemma_parse_opening(m.name(), 2, f + (g + rest));
            lemma_parse_packed_text(key, g + rest);
            assert((f + (g + rest)).skip(f.len() as int) =~= g + rest);
            lemma_parse_packed_text(value, rest);
        },
        _ => {
            lemma_parse_packed_text(m.name(), rest);
        },
    }
}

/// Round trip: decoding the frame of a message gives the message.
pub proof fn lemma_decode_encode(m: MessageView)
    requires
        fits(m),
    ensures
        frame_of(m).len() == FRAME_SIZE,
        parse_message(frame_of(m)) == Some(m),
{
    lemma_parse_payload(m, zeros((FRAME_SIZE - payload(m).len()) as nat));
}

/// What fits in a frame: every message without fields; a `Get` whose key
/// has at most 40 bytes; a `Found` whose value has at most 38; a `Put`
/// whose key and value take at most 42 bytes as string elements, which is
/// their bytes and one byte more for each, or two for one of 32 bytes or
/// more.
pub proof fn lemma_capacity(m: MessageView)
    ensures
        match m {
            MessageView::Get { key } => fits(m) <==> encode_utf8(key).len() <= 40,
            MessageView::Put { key, value } => fits(m) <==> packed_text(key).len() + packed_text(
                value,
            ).len() <= 42,
            MessageView::Found { value } => fits(m) <==> encode_utf8(value).len() <= 38,
            _ => fits(m),
        },
{
    lemma_names();
}

} // verus!
