//! The inbound side of one connection: bytes arrive in arbitrary chunks, and
//! each complete frame becomes a message for the hub; end of stream or a
//! malformed frame ends the connection.
use vstd::prelude::*;
use crate::frame::{CodecError, FrameBuffer, drain_frames, split_frame};
use crate::message::{Message, message_from_payload, message_of};

verus! {

/// What the connection's reader does after one read.
pub struct ReadStep {
    /// Messages to hand to the hub, in the order they arrived.
    pub messages: Vec<Message>,
    /// Whether the connection is to be closed and deregistered.
    pub close: bool,
}

/// The state of one connection's reader: bytes of a frame not yet complete.
pub struct ConnectionReader {
    buffer: FrameBuffer,
}

impl ConnectionReader {
    /// The bytes received but not yet decoded.
    pub closed spec fn pending(&self) -> Seq<u8> {
        self.buffer.pending()
    }

    /// A reader that has received nothing.
    pub fn new() -> (r: ConnectionReader)
        ensures
            r.pending() == Seq::<u8>::empty(),
    {
        ConnectionReader { buffer: FrameBuffer::new() }
    }

    /// Handles the bytes of one read. An empty read is end of stream and closes
    /// the connection. Otherwise every complete frame is decoded, in order; the
    /// first frame whose payload does not parse, or a frame that declares a
    /// length over the limit, closes the connection, and the messages before it
    /// are still handed on.
    pub fn on_read(&mut self, chunk: &[u8]) -> (r: ReadStep)
        ensures
            chunk@.len() == 0 ==> r.close && r.messages@.len() == 0,
            chunk@.len() > 0 ==> ({
                let (frames, left) = drain_frames(old(self).pending() + chunk@);
                &&& r.messages@.len() <= frames.len()
                &&& forall|i: int|
                    0 <= i < r.messages@.len() ==> message_of(#[trigger] frames[i]) == Some(
                        r.messages@[i]@,
                    )
                &&& r.messages@.len() < frames.len() ==> r.close && message_of(
                    frames[r.messages@.len() as int],
                ) is None
                &&& r.messages@.len() == frames.len() ==> (r.close <==> split_frame(left)
                    == Err::<(Seq<u8>, nat), CodecError>(CodecError::Malformed))
                &&& !r.close ==> final(self).pending() == left
            }),
    {
        if chunk.len() == 0 {
            return ReadStep { messages: Vec::new(), close: true };
        }
        self.buffer.feed(chunk);
        let ghost all = self.buffer.pending();
        let frames = self.buffer.take_frames();
        let ghost fs = drain_frames(all).0;
        assert(frames@.len() == fs.len());
        let mut messages: Vec<Message> = Vec::new();
        let mut i: usize = 0;
        while i < frames.len()
            invariant
                chunk@.len() > 0,
                all == old(self).pending() + chunk@,
                fs == drain_frames(all).0,
                self.pending() == drain_frames(all).1,
                frames@.map_values(|v: Vec<u8>| v@) == fs,
                i <= frames@.len(),
                messages@.len() == i,
                forall|j: int| 0 <= j < i ==> message_of(#[trigger] fs[j]) == Some(messages@[j]@),
            decreases frames.len() - i,
        {
            assert(frames@[i as int]@ == fs[i as int]);
            match message_from_payload(frames[i].as_slice()) {
                Ok(m) => {
                    messages.push(m);
                },
                Err(_) => {
                    return ReadStep { messages, close: true };
                },
            }
            i = i + 1;
        }
        let close = match self.buffer.front_error() {
            Some(CodecError::Malformed) => true,
            _ => false,
        };
        ReadStep { messages, close }
    }
}

} // verus!
