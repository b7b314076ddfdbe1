//! The client's view of the conversation: the latest messages, newest first,
//! no more than fit on screen.
use vstd::prelude::*;
use crate::message::{Message, MessageModel};

verus! {

pub struct ChatLog {
    messages: Vec<Message>,
    capacity: usize,
}

impl ChatLog {
    /// The messages shown, newest first.
    pub closed spec fn shown(&self) -> Seq<MessageModel> {
        self.messages@.map_values(|m: Message| m@)
    }

    /// How many messages fit.
    pub closed spec fn limit(&self) -> nat {
        self.capacity as nat
    }

    /// The log's invariant: it never holds more than fit.
    pub open spec fn wf(&self) -> bool {
        self.shown().len() <= self.limit()
    }

    /// An empty log that shows at most `capacity` messages.
    pub fn new(capacity: usize) -> (r: ChatLog)
        ensures
            r.wf(),
            r.shown() == Seq::<MessageModel>::empty(),
            r.limit() == capacity,
    {
        let r = ChatLog { messages: Vec::new(), capacity };
        assert(r.shown() =~= Seq::<MessageModel>::empty());
        r
    }

    /// Changes how many messages fit, dropping the oldest ones that no longer
    /// do.
    pub fn set_capacity(&mut self, capacity: usize)
        requires
            old(self).wf(),
        ensures
            final(self).wf(),
            final(self).limit() == capacity,
            final(self).shown() == if old(self).shown().len() <= capacity {
                old(self).shown()
            } else {
                old(self).shown().take(capacity as int)
            },
    {
        self.capacity = capacity;
        if self.messages.len() > capacity {
            let ghost before = self.messages@;
            self.messages.truncate(capacity);
            assert(self.shown() =~= before.map_values(|m: Message| m@).take(capacity as int));
        }
    }

    /// Shows a newly received message first, dropping the oldest one when the
    /// log is full.
    pub fn receive(&mut self, msg: Message)
        requires
            old(self).wf(),
        ensures
            final(self).wf(),
            final(self).limit() == old(self).limit(),
            final(self).shown() == if old(self).shown().len() < old(self).limit() {
                seq![msg@] + old(self).shown()
            } else {
                (seq![msg@] + old(self).shown()).take(old(self).limit() as int)
            },
    {
        let ghost m = msg@;
        let ghost before = self.shown();
        self.messages.insert(0, msg);
        assert(self.shown() =~= seq![m] + before);
        if self.messages.len() > self.capacity {
            let ghost full = self.messages@;
            self.messages.truncate(self.capacity);
            assert(self.shown() =~= full.map_values(|x: Message| x@).take(self.capacity as int));
        }
    }

    /// The messages shown, newest first.
    pub fn messages(&self) -> (r: &Vec<Message>)
        ensures
            r@.map_values(|m: Message| m@) == self.shown(),
    {
        &self.messages
    }

    /// How many messages fit.
    pub fn capacity(&self) -> (r: usize)
        ensures
            r == self.limit(),
    {
        self.capacity
    }
}

} // verus!
