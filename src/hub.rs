//! The broadcast hub: the one owner of the registry of live connections. It
//! decides, for each event, which connections get which frames; the caller
//! performs the writes and reports the ones that failed.
use vstd::prelude::*;
use crate::frame::{MAX_PAYLOAD_LEN, copy_range, frame_of};
use crate::message::{Message, payload_of};

verus! {

/// Identifies one accepted connection.
pub type ConnId = u64;

/// The frame of one message and the connections it is to be written to, in
/// registration order.
pub struct Broadcast {
    pub frame: Vec<u8>,
    pub targets: Vec<ConnId>,
}

/// What the hub holds, as mathematical values.
pub struct HubModel {
    /// Registered connections, in order of registration.
    pub clients: Seq<ConnId>,
    /// Frames of the messages broadcast so far, oldest first, when history is kept.
    pub history: Seq<Seq<u8>>,
    /// Whether a message is also written back to the connection that sent it.
    pub include_sender: bool,
    /// Whether broadcast frames are kept for replay to later connections.
    pub keep_history: bool,
}

/// Whether a message from `from` is written to connection `c`.
pub open spec fn sent_to(from: ConnId, include_sender: bool) -> spec_fn(ConnId) -> bool {
    |c: ConnId| include_sender || c != from
}

/// Whether connection `c` stays when the connections in `gone` are dropped.
pub open spec fn stays(gone: Set<ConnId>) -> spec_fn(ConnId) -> bool {
    |c: ConnId| !gone.contains(c)
}

/// The connections a message from `from` goes to.
pub open spec fn recipients(clients: Seq<ConnId>, from: ConnId, include_sender: bool) -> Seq<ConnId> {
    clients.filter(sent_to(from, include_sender))
}

/// The registry once the connections in `gone` are dropped.
pub open spec fn without(clients: Seq<ConnId>, gone: Set<ConnId>) -> Seq<ConnId> {
    clients.filter(stays(gone))
}

/// The hub after broadcasting a message whose frame is `frame`.
pub open spec fn after_message(h: HubModel, frame: Seq<u8>) -> HubModel {
    HubModel {
        history: if h.keep_history { h.history.push(frame) } else { h.history },
        ..h
    }
}

/// The registry of live connections and the broadcast policy.
pub struct Hub {
    clients: Vec<ConnId>,
    history: Vec<Vec<u8>>,
    include_sender: bool,
    keep_history: bool,
}

impl View for Hub {
    type V = HubModel;

    closed spec fn view(&self) -> HubModel {
        HubModel {
            clients: self.clients@,
            history: self.history@.map_values(|v: Vec<u8>| v@),
            include_sender: self.include_sender,
            keep_history: self.keep_history,
        }
    }
}

proof fn lemma_filter_no_dup(s: Seq<ConnId>, p: spec_fn(ConnId) -> bool)
    requires
        s.no_duplicates(),
    ensures
        s.filter(p).no_duplicates(),
    decreases s.len(),
{
    reveal(Seq::filter);
    if s.len() > 0 {
        let d = s.drop_last();
        assert(d.no_duplicates());
        lemma_filter_no_dup(d, p);
        assert(!d.contains(s.last()));
        if d.filter(p).contains(s.last()) {
            d.lemma_filter_contains_rev(p, s.last());
        }
    }
}

proof fn lemma_filter_commute(s: Seq<ConnId>, p: spec_fn(ConnId) -> bool, q: spec_fn(ConnId) -> bool)
    ensures
        s.filter(p).filter(q) == s.filter(q).filter(p),
    decreases s.len(),
{
    reveal(Seq::filter);
    if s.len() > 0 {
        let d = s.drop_last();
        lemma_filter_commute(d, p, q);
        let x = s.last();
        if p(x) {
            assert(s.filter(p) == d.filter(p).push(x));
            assert(s.filter(p).drop_last() =~= d.filter(p));
        } else {
            assert(s.filter(p) == d.filter(p));
        }
        if q(x) {
            assert(s.filter(q) == d.filter(q).push(x));
            assert(s.filter(q).drop_last() =~= d.filter(q));
        } else {
            assert(s.filter(q) == d.filter(q));
        }
    } else {
        assert(s.filter(p) =~= s);
        assert(s.filter(q) =~= s);
    }
}

/// Fan-out: with a registry free of duplicates, a message from `from` goes to
/// every other registered connection exactly once, to no connection outside
/// the registry, and back to `from` exactly when the policy says so and
/// `from` is registered.
pub proof fn lemma_fan_out(clients: Seq<ConnId>, from: ConnId, include_sender: bool)
    requires
        clients.no_duplicates(),
    ensures
        recipients(clients, from, include_sender).no_duplicates(),
        forall|c: ConnId|
            clients.contains(c) && c != from ==> #[trigger] recipients(
                clients,
                from,
                include_sender,
            ).contains(c),
        forall|c: ConnId| #[trigger]
            recipients(clients, from, include_sender).contains(c) ==> clients.contains(c),
        recipients(clients, from, include_sender).contains(from) <==> (include_sender
            && clients.contains(from)),
{
    broadcast use vstd::seq_lib::group_filter_ensures, Seq::lemma_filter_contains_rev;

    let p = sent_to(from, include_sender);
    lemma_filter_no_dup(clients, p);
    assert forall|c: ConnId| clients.contains(c) && c != from implies #[trigger] recipients(
        clients,
        from,
        include_sender,
    ).contains(c) by {
        let i = choose|i: int| 0 <= i < clients.len() && clients[i] == c;
        clients.lemma_filter_contains(p, i);
    }
    if include_sender && clients.contains(from) {
        let i = choose|i: int| 0 <= i < clients.len() && clients[i] == from;
        clients.lemma_filter_contains(p, i);
    }
    if recipients(clients, from, include_sender).contains(from) {
        let r = recipients(clients, from, include_sender);
        let i = choose|i: int| 0 <= i < r.len() && r[i] == from;
        clients.lemma_filter_pred(p, i);
    }
}

/// Isolation: dropping some connections from the registry changes the
/// recipients of a later message only by leaving those connections out; the
/// others keep receiving it, in the same order.
pub proof fn lemma_isolation(
    clients: Seq<ConnId>,
    gone: Set<ConnId>,
    from: ConnId,
    include_sender: bool,
)
    ensures
        recipients(without(clients, gone), from, include_sender) == without(
            recipients(clients, from, include_sender),
            gone,
        ),
{
    lemma_filter_commute(clients, stays(gone), sent_to(from, include_sender));
}

/// Ordering: broadcasting a message leaves the registry as it was, so the next
/// message from the same sender goes to exactly the same connections, in the
/// same order, after the first.
pub proof fn lemma_in_order(h: HubModel, from: ConnId, frame: Seq<u8>)
    ensures
        recipients(after_message(h, frame).clients, from, h.include_sender) == recipients(
            h.clients,
            from,
            h.include_sender,
        ),
        after_message(h, frame).include_sender == h.include_sender,
{
}

fn copy_frames(frames: &Vec<Vec<u8>>) -> (r: Vec<Vec<u8>>)
    ensures
        r@.map_values(|v: Vec<u8>| v@) == frames@.map_values(|v: Vec<u8>| v@),
{
    let mut out: Vec<Vec<u8>> = Vec::new();
    let mut i: usize = 0;
    while i < frames.len()
        invariant
            i <= frames@.len(),
            out@.map_values(|v: Vec<u8>| v@) == frames@.map_values(|v: Vec<u8>| v@).take(i as int),
        decreases frames.len() - i,
    {
        let f = copy_range(frames[i].as_slice(), 0, frames[i].len());
        assert(frames[i as int]@.subrange(0, frames[i as int]@.len() as int) =~= frames[i as int]@);
        let ghost before = out@.map_values(|v: Vec<u8>| v@);
        out.push(f);
        assert(out@.map_values(|v: Vec<u8>| v@) =~= before.push(frames[i as int]@));
        assert(frames@.map_values(|v: Vec<u8>| v@).take(i + 1) =~= frames@.map_values(
            |v: Vec<u8>| v@,
        ).take(i as int).push(frames[i as int]@));
        i = i + 1;
        assert(out@.map_values(|v: Vec<u8>| v@) =~= frames@.map_values(|v: Vec<u8>| v@).take(i as int));
    }
    assert(frames@.map_values(|v: Vec<u8>| v@).take(i as int) =~= frames@.map_values(|v: Vec<u8>| v@));
    out
}

fn recipients_of(clients: &Vec<ConnId>, from: ConnId, include_sender: bool) -> (r: Vec<ConnId>)
    ensures
        r@ == recipients(clients@, from, include_sender),
{
    let ghost p = sent_to(from, include_sender);
    let mut out: Vec<ConnId> = Vec::new();
    let mut i: usize = 0;
    while i < clients.len()
        invariant
            i <= clients@.len(),
            p == sent_to(from, include_sender),
            out@ == clients@.take(i as int).filter(p),
        decreases clients.len() - i,
    {
        let c = clients[i];
        assert(clients@.take(i + 1).drop_last() =~= clients@.take(i as int));
        reveal(Seq::filter);
        if include_sender || c != from {
            out.push(c);
        }
        i = i + 1;
    }
    assert(clients@.take(i as int) =~= clients@);
    out
}

fn without_ids(clients: &Vec<ConnId>, gone: &Vec<ConnId>) -> (r: Vec<ConnId>)
    ensures
        r@ == without(clients@, gone@.to_set()),
{
    let ghost p = stays(gone@.to_set());
    let mut out: Vec<ConnId> = Vec::new();
    let mut i: usize = 0;
    while i < clients.len()
        invariant
            i <= clients@.len(),
            p == stays(gone@.to_set()),
            out@ == clients@.take(i as int).filter(p),
        decreases clients.len() - i,
    {
        let c = clients[i];
        assert(clients@.take(i + 1).drop_last() =~= clients@.take(i as int));
        reveal(Seq::filter);
        let mut found = false;
        let mut j: usize = 0;
        while j < gone.len()
            invariant
                j <= gone@.len(),
                found <==> exists|k: int| 0 <= k < j && gone@[k] == c,
            decreases gone.len() - j,
        {
            if gone[j] == c {
                found = true;
            }
            j = j + 1;
        }
        assert(found <==> gone@.contains(c));
        assert(found <==> gone@.to_set().contains(c));
        if !found {
            out.push(c);
        }
        i = i + 1;
    }
    assert(clients@.take(i as int) =~= clients@);
    out
}

impl Hub {
    /// The hub's invariant: no connection is registered twice, and nothing is
    /// kept when history is off.
    pub open spec fn wf(&self) -> bool {
        &&& self@.clients.no_duplicates()
        &&& !self@.keep_history ==> self@.history.len() == 0
    }

    /// A hub with no connections. `include_sender` decides whether a message
    /// is written back to its sender; `keep_history` whether a connection that
    /// registers later is first sent every message broadcast before it.
    pub fn new(include_sender: bool, keep_history: bool) -> (r: Hub)
        ensures
            r.wf(),
            r@ == (HubModel {
                clients: Seq::empty(),
                history: Seq::empty(),
                include_sender,
                keep_history,
            }),
    {
        let r = Hub { clients: Vec::new(), history: Vec::new(), include_sender, keep_history };
        assert(r@.history =~= Seq::<Seq<u8>>::empty());
        r
    }

    /// Whether connection `id` is registered.
    pub fn is_registered(&self, id: ConnId) -> (r: bool)
        ensures
            r == self@.clients.contains(id),
    {
        let mut i: usize = 0;
        while i < self.clients.len()
            invariant
                i <= self@.clients.len(),
                forall|k: int| 0 <= k < i ==> self@.clients[k] != id,
            decreases self.clients.len() - i,
        {
            if self.clients[i] == id {
                return true;
            }
            i = i + 1;
        }
        false
    }

    /// The registered connections, in order of registration.
    pub fn clients(&self) -> (r: &Vec<ConnId>)
        ensures
            r@ == self@.clients,
    {
        &self.clients
    }

    /// Registers connection `id` and returns the frames to write to it before
    /// any later broadcast: the kept history, oldest first. A connection that
    /// is already registered is left as it is and gets nothing.
    pub fn register(&mut self, id: ConnId) -> (replay: Vec<Vec<u8>>)
        requires
            old(self).wf(),
        ensures
            final(self).wf(),
            old(self)@.clients.contains(id) ==> final(self)@ == old(self)@ && replay@.len() == 0,
            !old(self)@.clients.contains(id) ==> final(self)@ == (HubModel {
                clients: old(self)@.clients.push(id),
                ..old(self)@
            }) && replay@.map_values(|v: Vec<u8>| v@) == old(self)@.history,
    {
        if self.is_registered(id) {
            return Vec::new();
        }
        self.clients.push(id);
        proof {
            let c = self@.clients;
            assert forall|i: int, j: int| 0 <= i < c.len() && 0 <= j < c.len() && i != j implies c[i]
                != c[j] by {
                if i == c.len() - 1 {
                    assert(old(self)@.clients.contains(c[j]));
                } else if j == c.len() - 1 {
                    assert(old(self)@.clients.contains(c[i]));
                }
            }
        }
        copy_frames(&self.history)
    }

    /// Drops connection `id`, whose stream has ended; the other connections
    /// stay, in the same order.
    pub fn deregister(&mut self, id: ConnId)
        requires
            old(self).wf(),
        ensures
            final(self).wf(),
            final(self)@ == (HubModel {
                clients: without(old(self)@.clients, set![id]),
                ..old(self)@
            }),
    {
        let gone = vec![id];
        assert(gone@.to_set() =~= set![id]);
        self.clients = without_ids(&self.clients, &gone);
        proof {
            lemma_filter_no_dup(old(self)@.clients, stays(set![id]));
        }
    }

    /// Decides the broadcast of message `msg` from connection `from`: its
    /// frame, and the connections to write it to. When history is kept the
    /// frame is also kept. A message whose encoding is longer than a frame may
    /// carry is dropped and nothing changes.
    pub fn on_message(&mut self, from: ConnId, msg: &Message) -> (r: Option<Broadcast>)
        requires
            old(self).wf(),
        ensures
            final(self).wf(),
            r is Some <==> payload_of(msg@).len() <= MAX_PAYLOAD_LEN,
            r matches Some(b) ==> {
                &&& b.frame@ == frame_of(payload_of(msg@))
                &&& b.targets@ == recipients(old(self)@.clients, from, old(self)@.include_sender)
                &&& final(self)@ == after_message(old(self)@, b.frame@)
            },
            r is None ==> final(self)@ == old(self)@,
    {
        match msg.write_out() {
            Ok(frame) => {
                let targets = recipients_of(&self.clients, from, self.include_sender);
                if self.keep_history {
                    let kept = copy_range(frame.as_slice(), 0, frame.len());
                    assert(frame@.subrange(0, frame@.len() as int) =~= frame@);
                    let ghost before = self@.history;
                    self.history.push(kept);
                    assert(self@.history =~= before.push(frame@));
                }
                Some(Broadcast { frame, targets })
            },
            Err(_) => None,
        }
    }

    /// Drops the connections whose writes failed during the last broadcast;
    /// the others stay, in the same order.
    pub fn finish_pass(&mut self, failed: &Vec<ConnId>)
        requires
            old(self).wf(),
        ensures
            final(self).wf(),
            final(self)@ == (HubModel {
                clients: without(old(self)@.clients, failed@.to_set()),
                ..old(self)@
            }),
    {
        self.clients = without_ids(&self.clients, failed);
        proof {
            lemma_filter_no_dup(old(self)@.clients, stays(failed@.to_set()));
        }
    }
}

} // verus!
