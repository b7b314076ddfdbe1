//! Chat messages and their wire form: a frame whose payload is the MessagePack
//! encoding of the record `(author, content)`.
use vstd::prelude::*;
use crate::frame::{
    CodecError, MAX_PAYLOAD_LEN, frame_of, split_frame, encode_frame, split_first_frame,
    lemma_frame_round_trip,
};

verus! {

/// One chat message. Messages sent by a client always carry an author.
#[derive(Debug, PartialEq, Eq)]
pub struct Message {
    pub author: Option<String>,
    pub content: String,
}

/// What a message holds, as mathematical values.
pub struct MessageModel {
    pub author: Option<Seq<char>>,
    pub content: Seq<char>,
}

pub open spec fn opt_chars(o: Option<String>) -> Option<Seq<char>> {
    match o {
        Some(s) => Some(s@),
        None => None,
    }
}

impl View for Message {
    type V = MessageModel;

    open spec fn view(&self) -> MessageModel {
        MessageModel { author: opt_chars(self.author), content: self.content@ }
    }
}

/// The bytes rmp_serde writes for the record `(author, content)`.
pub uninterp spec fn msgpack_record(author: Option<Seq<char>>, content: Seq<char>) -> Seq<u8>;

/// The record `(author, content)` that rmp_serde reads from the front of
/// `bytes`, if any.
pub uninterp spec fn msgpack_parse(bytes: Seq<u8>) -> Option<(Option<Seq<char>>, Seq<char>)>;

/// The payload that carries message `m`.
pub open spec fn payload_of(m: MessageModel) -> Seq<u8> {
    msgpack_record(m.author, m.content)
}

/// The message that payload `p` carries, if it parses.
pub open spec fn message_of(p: Seq<u8>) -> Option<MessageModel> {
    match msgpack_parse(p) {
        Some((a, c)) => Some(MessageModel { author: a, content: c }),
        None => None,
    }
}

/// Relies on rmp_serde::to_vec: it returns the MessagePack encoding of the
/// pair, which depends on the two values alone. Its writer fails only when the
/// output vector cannot grow, and the string, nil and tuple writes fail only
/// through the writer, so the encoding is always returned.
#[verifier::external_body]
fn serialize_record(author: &Option<String>, content: &String) -> (r: Option<Vec<u8>>)
    ensures
        r is Some,
        r matches Some(v) ==> v@ == msgpack_record(opt_chars(*author), content@),
{
    rmp_serde::to_vec(&(author, content)).ok()
}

/// Relies on rmp_serde::from_slice: it parses a MessagePack pair of an
/// optional string and a string from the front of the bytes, or fails; the
/// outcome depends on the bytes alone.
#[verifier::external_body]
fn deserialize_record(bytes: &[u8]) -> (r: Option<(Option<String>, String)>)
    ensures
        match (r, msgpack_parse(bytes@)) {
            (Some((a, c)), Some((sa, sc))) => opt_chars(a) == sa && c@ == sc,
            (None, None) => true,
            _ => false,
        },
{
    rmp_serde::from_slice::<(Option<String>, String)>(bytes).ok()
}

/// Why a message could not be written as a frame.
#[derive(Debug, Clone, Copy, PartialEq, Eq, Structural)]
pub enum EncodeError {
    /// The encoded message is longer than a frame may carry.
    TooLarge,
}

/// Reads the message carried by `payload`; a payload that does not parse is
/// malformed.
pub fn message_from_payload(payload: &[u8]) -> (r: Result<Message, CodecError>)
    ensures
        match message_of(payload@) {
            Some(m) => r matches Ok(msg) && msg@ == m,
            None => r == Err::<Message, CodecError>(CodecError::Malformed),
        },
{
    match deserialize_record(payload) {
        Some((author, content)) => Ok(Message { author, content }),
        None => Err(CodecError::Malformed),
    }
}

/// A frame written for a message (see `write_out`) is taken back, by
/// `read_in` or a connection's reader, as exactly the payload written for the
/// message, consuming exactly the frame, whatever bytes follow it.
pub proof fn lemma_written_message_reads_back(m: MessageModel, rest: Seq<u8>)
    requires
        payload_of(m).len() <= MAX_PAYLOAD_LEN,
    ensures
        split_frame(frame_of(payload_of(m)) + rest) == Ok::<(Seq<u8>, nat), CodecError>(
            (payload_of(m), (4 + payload_of(m).len()) as nat),
        ),
{
    lemma_frame_round_trip(payload_of(m), rest);
}

impl Message {
    /// A message from the named author.
    pub fn from_author(name: &str, content: String) -> (r: Message)
        ensures
            r@ == (MessageModel { author: Some(name@), content: content@ }),
    {
        Message { author: Some(name.to_owned()), content }
    }

    /// A copy of this message.
    pub fn duplicate(&self) -> (r: Message)
        ensures
            r@ == self@,
    {
        let author = match &self.author {
            Some(a) => Some(a.clone()),
            None => None,
        };
        Message { author, content: self.content.clone() }
    }

    /// The frame that carries this message; a message whose encoding is
    /// longer than a frame may carry is refused.
    pub fn write_out(&self) -> (r: Result<Vec<u8>, EncodeError>)
        ensures
            r is Ok <==> payload_of(self@).len() <= MAX_PAYLOAD_LEN,
            r matches Ok(v) ==> v@ == frame_of(payload_of(self@)),
            r is Err ==> r == Err::<Vec<u8>, EncodeError>(EncodeError::TooLarge),
    {
        match serialize_record(&self.author, &self.content) {
            Some(payload) => match encode_frame(payload.as_slice()) {
                Some(frame) => Ok(frame),
                None => Err(EncodeError::TooLarge),
            },
            None => Err(EncodeError::TooLarge),
        }
    }

    /// Reads the message in the frame at the front of `buf`, with the number of
    /// bytes that frame occupies.
    pub fn read_in(buf: &[u8]) -> (r: Result<(Message, usize), CodecError>)
        ensures
            match split_frame(buf@) {
                Err(e) => r == Err::<(Message, usize), CodecError>(e),
                Ok((p, used)) => match message_of(p) {
                    Some(m) => r matches Ok((msg, n)) && msg@ == m && n == used,
                    None => r == Err::<(Message, usize), CodecError>(CodecError::Malformed),
                },
            },
    {
        match split_first_frame(buf) {
            Ok((payload, used)) => match message_from_payload(payload.as_slice()) {
                Ok(msg) => Ok((msg, used)),
                Err(e) => Err(e),
            },
            Err(e) => Err(e),
        }
    }
}

} // verus!
