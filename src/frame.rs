//! Length-prefixed frames: a 4-byte big-endian payload length followed by
//! exactly that many payload bytes, and a decoder that reassembles frames from
//! a byte stream cut into arbitrary chunks.
use vstd::prelude::*;

verus! {

/// The largest payload a frame may declare; a larger declared length marks the
/// frame as malformed.
pub const MAX_PAYLOAD_LEN: u32 = 1048576;

/// Why a frame could not be taken from the front of a byte sequence.
#[derive(Debug, Clone, Copy, PartialEq, Eq, Structural)]
pub enum CodecError {
    /// More bytes are needed before the frame is complete.
    Truncated,
    /// The bytes cannot be a frame (or its payload does not parse); the
    /// connection that sent them should be closed.
    Malformed,
}

/// The 4-byte big-endian header announcing a payload of `len` bytes.
#[verifier::opaque]
pub open spec fn header_of(len: u32) -> Seq<u8> {
    seq![(len >> 24u32) as u8, (len >> 16u32) as u8, (len >> 8u32) as u8, len as u8]
}

/// The length announced by the first four bytes of `s`.
#[verifier::opaque]
pub open spec fn header_value(s: Seq<u8>) -> u32
    recommends
        s.len() >= 4,
{
    ((s[0] as u32) << 24u32) | ((s[1] as u32) << 16u32) | ((s[2] as u32) << 8u32) | (s[3] as u32)
}

/// The frame that carries `payload`.
pub open spec fn frame_of(payload: Seq<u8>) -> Seq<u8> {
    header_of(payload.len() as u32) + payload
}

/// What taking one frame from the front of `s` gives: the payload and the
/// number of bytes the frame occupies, or why there is no frame.
pub open spec fn split_frame(s: Seq<u8>) -> Result<(Seq<u8>, nat), CodecError> {
    if s.len() < 4 {
        Err(CodecError::Truncated)
    } else if header_value(s) > MAX_PAYLOAD_LEN {
        Err(CodecError::Malformed)
    } else if s.len() < 4 + header_value(s) {
        Err(CodecError::Truncated)
    } else {
        Ok((s.subrange(4, 4 + header_value(s)), (4 + header_value(s)) as nat))
    }
}

/// Takes every complete frame from the front of `s`, in order, and gives their
/// payloads and the bytes left over: an incomplete frame, a malformed one
/// (with everything after it), or nothing.
pub open spec fn drain_frames(s: Seq<u8>) -> (Seq<Seq<u8>>, Seq<u8>)
    decreases s.len(),
{
    match split_frame(s) {
        Ok((payload, used)) => {
            if 0 < used <= s.len() {
                let (rest_frames, left) = drain_frames(s.subrange(used as int, s.len() as int));
                (seq![payload] + rest_frames, left)
            } else {
                (seq![], s)
            }
        },
        Err(_) => (seq![], s),
    }
}

proof fn lemma_header_round_trip(len: u32)
    ensures
        header_value(header_of(len)) == len,
        header_of(len).len() == 4,
{
    reveal(header_of);
    reveal(header_value);
    let h = header_of(len);
    assert(h[0] == (len >> 24u32) as u8);
    assert(h[1] == (len >> 16u32) as u8);
    assert(h[2] == (len >> 8u32) as u8);
    assert(h[3] == len as u8);
    assert(((((len >> 24u32) as u8) as u32) << 24u32) | ((((len >> 16u32) as u8) as u32) << 16u32)
        | ((((len >> 8u32) as u8) as u32) << 8u32) | ((len as u8) as u32) == len) by (bit_vector);
}

/// Taking a frame from the front of a sequence depends only on the frame's own
/// bytes: whatever follows a complete or malformed frame does not change it.
pub proof fn lemma_split_frame_prefix(a: Seq<u8>, b: Seq<u8>)
    requires
        split_frame(a) != Err::<(Seq<u8>, nat), CodecError>(CodecError::Truncated),
    ensures
        split_frame(a + b) == split_frame(a),
{
    let s = a + b;
    assert(s.subrange(0, 4) =~= a.subrange(0, 4));
    assert(s[0] == a[0] && s[1] == a[1] && s[2] == a[2] && s[3] == a[3]);
    reveal(header_value);
    assert(header_value(s) == header_value(a));
    if header_value(a) <= MAX_PAYLOAD_LEN {
        assert(s.subrange(4, 4 + header_value(s)) =~= a.subrange(4, 4 + header_value(a)));
    }
}

/// A frame written for a payload within the size limit reads back as that
/// payload, consuming exactly the frame, whatever bytes follow it.
pub proof fn lemma_frame_round_trip(payload: Seq<u8>, rest: Seq<u8>)
    requires
        payload.len() <= MAX_PAYLOAD_LEN,
    ensures
        split_frame(frame_of(payload) + rest) == Ok::<(Seq<u8>, nat), CodecError>(
            (payload, (4 + payload.len()) as nat),
        ),
{
    let len = payload.len() as u32;
    lemma_header_round_trip(len);
    let f = frame_of(payload);
    assert(f.subrange(0, 4) =~= header_of(len));
    reveal(header_value);
    assert(f[0] == header_of(len)[0] && f[1] == header_of(len)[1] && f[2] == header_of(len)[2] && f[3] == header_of(len)[3]);
    assert(header_value(f) == header_value(header_of(len)));
    assert(f.subrange(4, 4 + len) =~= payload);
    lemma_split_frame_prefix(f, rest);
}

/// Draining a stream in two chunks (keeping what is left over after the first,
/// then appending the second) gives the same payloads, in the same order, and
/// the same leftover bytes as draining the two chunks joined: where the stream
/// is cut does not matter.
pub proof fn lemma_drain_chunked(a: Seq<u8>, b: Seq<u8>)
    ensures
        ({
            let (f1, r1) = drain_frames(a);
            let (f2, r2) = drain_frames(r1 + b);
            f1 + f2 == drain_frames(a + b).0 && r2 == drain_frames(a + b).1
        }),
    decreases a.len(),
{
    let (f1, r1) = drain_frames(a);
    match split_frame(a) {
        Ok((payload, used)) => {
            lemma_split_frame_prefix(a, b);
            if 0 < used <= a.len() {
                let tail = a.subrange(used as int, a.len() as int);
                assert((a + b).subrange(used as int, (a + b).len() as int) =~= tail + b);
                lemma_drain_chunked(tail, b);
                let (ft, rt) = drain_frames(tail);
                assert(f1 == seq![payload] + ft);
                let (f2, r2) = drain_frames(rt + b);
                assert(seq![payload] + ft + f2 =~= seq![payload] + (ft + f2));
            }
        },
        Err(_) => {
            assert(f1 =~= Seq::<Seq<u8>>::empty());
            assert(r1 == a);
            assert(f1 + drain_frames(a + b).0 =~= drain_frames(a + b).0);
        },
    }
}

proof fn lemma_drain_one(payload: Seq<u8>, rest: Seq<u8>)
    requires
        payload.len() <= MAX_PAYLOAD_LEN,
    ensures
        drain_frames(frame_of(payload) + rest) == (seq![payload] + drain_frames(rest).0, drain_frames(rest).1),
{
    let s = frame_of(payload) + rest;
    lemma_frame_round_trip(payload, rest);
    lemma_header_round_trip(payload.len() as u32);
    assert(s.subrange((4 + payload.len()) as int, s.len() as int) =~= rest);
}

/// Two frames sent back to back are read back as exactly their two payloads,
/// in order, with nothing left over.
pub proof fn lemma_two_frames(p1: Seq<u8>, p2: Seq<u8>)
    requires
        p1.len() <= MAX_PAYLOAD_LEN,
        p2.len() <= MAX_PAYLOAD_LEN,
    ensures
        drain_frames(frame_of(p1) + frame_of(p2)) == (seq![p1, p2], Seq::<u8>::empty()),
{
    let e = Seq::<u8>::empty();
    lemma_drain_one(p1, frame_of(p2));
    lemma_drain_one(p2, e);
    assert(frame_of(p2) + e =~= frame_of(p2));
    assert(drain_frames(e) == (Seq::<Seq<u8>>::empty(), e));
    assert(seq![p1] + (seq![p2] + Seq::<Seq<u8>>::empty()) =~= seq![p1, p2]);
}

/// The frame that carries `payload`, or `None` when the payload is longer
/// than a frame may declare.
pub fn encode_frame(payload: &[u8]) -> (r: Option<Vec<u8>>)
    ensures
        r is Some <==> payload@.len() <= MAX_PAYLOAD_LEN,
        r matches Some(v) ==> v@ == frame_of(payload@),
{
    if payload.len() > MAX_PAYLOAD_LEN as usize {
        return None;
    }
    let len = payload.len() as u32;
    proof {
        reveal(header_of);
    }
    let mut out: Vec<u8> = Vec::new();
    out.push((len >> 24u32) as u8);
    out.push((len >> 16u32) as u8);
    out.push((len >> 8u32) as u8);
    out.push(len as u8);
    let mut i: usize = 0;
    while i < payload.len()
        invariant
            i <= payload@.len(),
            out@ == header_of(len) + payload@.subrange(0, i as int),
        decreases payload.len() - i,
    {
        out.push(payload[i]);
        i = i + 1;
        assert(out@ =~= header_of(len) + payload@.subrange(0, i as int));
    }
    assert(payload@.subrange(0, i as int) =~= payload@);
    Some(out)
}

fn read_header(s: &[u8]) -> (r: u32)
    requires
        s@.len() >= 4,
    ensures
        r == header_value(s@),
{
    proof {
        reveal(header_value);
    }
    ((s[0] as u32) << 24u32) | ((s[1] as u32) << 16u32) | ((s[2] as u32) << 8u32) | (s[3] as u32)
}

pub(crate) fn copy_range(s: &[u8], start: usize, end: usize) -> (r: Vec<u8>)
    requires
        start <= end <= s@.len(),
    ensures
        r@ == s@.subrange(start as int, end as int),
{
    let mut out: Vec<u8> = Vec::new();
    let mut i: usize = start;
    while i < end
        invariant
            start <= i <= end,
            end <= s@.len(),
            out@ == s@.subrange(start as int, i as int),
        decreases end - i,
    {
        out.push(s[i]);
        i = i + 1;
        assert(out@ =~= s@.subrange(start as int, i as int));
    }
    out
}

/// Takes one frame from the front of `s`: its payload and the number of bytes
/// the frame occupies.
pub fn split_first_frame(s: &[u8]) -> (r: Result<(Vec<u8>, usize), CodecError>)
    ensures
        match (r, split_frame(s@)) {
            (Ok((p, used)), Ok((sp, sused))) => p@ == sp && used == sused,
            (Err(e), Err(se)) => e == se,
            _ => false,
        },
{
    if s.len() < 4 {
        return Err(CodecError::Truncated);
    }
    let len = read_header(s);
    if len > MAX_PAYLOAD_LEN {
        return Err(CodecError::Malformed);
    }
    let end = 4 + len as usize;
    if s.len() < end {
        return Err(CodecError::Truncated);
    }
    Ok((copy_range(s, 4, end), end))
}

/// Bytes received on one connection that do not yet form a complete frame.
pub struct FrameBuffer {
    pending: Vec<u8>,
}

impl FrameBuffer {
    /// The bytes held, in order of arrival.
    pub closed spec fn pending(&self) -> Seq<u8> {
        self.pending@
    }

    /// An empty buffer.
    pub fn new() -> (r: FrameBuffer)
        ensures
            r.pending() == Seq::<u8>::empty(),
    {
        FrameBuffer { pending: Vec::new() }
    }

    /// Appends bytes just read from the connection.
    pub fn feed(&mut self, chunk: &[u8])
        ensures
            final(self).pending() == old(self).pending() + chunk@,
    {
        let ghost before = self.pending@;
        let mut i: usize = 0;
        while i < chunk.len()
            invariant
                i <= chunk@.len(),
                self.pending@ == before + chunk@.subrange(0, i as int),
            decreases chunk.len() - i,
        {
            self.pending.push(chunk[i]);
            i = i + 1;
            assert(self.pending@ =~= before + chunk@.subrange(0, i as int));
        }
        assert(chunk@.subrange(0, i as int) =~= chunk@);
    }

    /// Removes every complete frame from the front of the buffer and returns
    /// their payloads in order; what is left is an incomplete frame, a
    /// malformed one with what follows it, or nothing.
    pub fn take_frames(&mut self) -> (r: Vec<Vec<u8>>)
        ensures
            r@.map_values(|v: Vec<u8>| v@) == drain_frames(old(self).pending()).0,
            final(self).pending() == drain_frames(old(self).pending()).1,
    {
        let ghost orig = self.pending@;
        let mut out: Vec<Vec<u8>> = Vec::new();
        assert(out@.map_values(|v: Vec<u8>| v@) + drain_frames(orig).0 =~= drain_frames(orig).0);
        loop
            invariant
                orig == old(self).pending(),
                out@.map_values(|v: Vec<u8>| v@) + drain_frames(self.pending@).0
                    == drain_frames(orig).0,
                drain_frames(self.pending@).1 == drain_frames(orig).1,
            decreases self.pending@.len(),
        {
            match split_first_frame(self.pending.as_slice()) {
                Ok((payload, used)) => {
                    let ghost cur = self.pending@;
                    let ghost p = payload@;
                    let ghost done = out@.map_values(|v: Vec<u8>| v@);
                    let rest = copy_range(self.pending.as_slice(), used, self.pending.len());
                    assert(drain_frames(cur).0 == seq![p] + drain_frames(rest@).0);
                    out.push(payload);
                    assert(out@.map_values(|v: Vec<u8>| v@) =~= done.push(p));
                    self.pending = rest;
                    assert(done.push(p) + drain_frames(rest@).0 =~= done + (seq![p] + drain_frames(
                        rest@,
                    ).0));
                },
                Err(_) => {
                    assert(drain_frames(self.pending@) == (Seq::<Seq<u8>>::empty(), self.pending@));
                    assert(out@.map_values(|v: Vec<u8>| v@) + Seq::<Seq<u8>>::empty()
                        =~= out@.map_values(|v: Vec<u8>| v@));
                    return out;
                },
            }
        }
    }
    /// Why no frame can be taken from the front of the buffer, or `None` when
    /// a complete frame is there.
    pub fn front_error(&self) -> (r: Option<CodecError>)
        ensures
            match split_frame(self.pending()) {
                Ok(_) => r is None,
                Err(e) => r == Some(e),
            },
    {
        match split_first_frame(self.pending.as_slice()) {
            Ok(_) => None,
            Err(e) => Some(e),
        }
    }
}

} // verus!
