//! What guests and the launcher tell each other over the run's socket.

use vstd::prelude::*;
use crate::bytes;
use crate::bytes::{bytes32, cut, u32_at};
use crate::macho;
use crate::shared::{MSG_REPORT, MSG_SPAWN, MSG_SPAWNED};

verus! {

/// What a guest sends
pub struct Frame {
    pub kind: u8,
    pub proc_index: u32,
    pub payload: Vec<u8>,
}

#[verifier::ext_equal]
pub struct FrameView {
    pub kind: u8,
    pub proc_index: u32,
    pub payload: Seq<u8>,
}

impl View for Frame {
    type V = FrameView;

    open spec fn view(&self) -> FrameView {
        FrameView { kind: self.kind, proc_index: self.proc_index, payload: self.payload@ }
    }
}

impl FrameView {
    /// How it goes over the socket: the length of what follows, what it
    /// is, who sends it, and its payload
    pub open spec fn wire(self) -> Seq<u8> {
        bytes::le32((self.payload.len() + 5) as u32) + seq![self.kind] + bytes::le32(
            self.proc_index,
        ) + self.payload
    }
}

/// The length of the first frame, without its length field, if that is
/// complete
pub open spec fn first_len(b: Seq<u8>) -> Option<int> {
    if b.len() < 4 {
        None
    } else {
        let len = bytes::at32(b, 0) as int;
        if len < 5 || b.len() < 4 + len {
            None
        } else {
            Some(len)
        }
    }
}

/// The first frame
pub open spec fn first_frame(b: Seq<u8>, len: int) -> FrameView {
    FrameView {
        kind: b[4],
        proc_index: bytes::at32(b, 5),
        payload: b.subrange(9, 4 + len),
    }
}

/// The complete frames of what has arrived, and what is left
pub open spec fn drained(b: Seq<u8>) -> (Seq<FrameView>, Seq<u8>)
    decreases b.len(),
{
    match first_len(b) {
        None => (Seq::empty(), b),
        Some(len) => {
            let (frames, left) = drained(b.skip(4 + len));
            (seq![first_frame(b, len)] + frames, left)
        },
    }
}

/// Frames as what they say
pub open spec fn said(v: Seq<Frame>) -> Seq<FrameView> {
    v.map_values(|f: Frame| f@)
}

/// The bytes of a frame
pub fn frame(kind: u8, proc_index: u32, payload: &Vec<u8>) -> (r: Vec<u8>)
    requires
        payload@.len() + 5 <= u32::MAX,
    ensures
        r@ == (FrameView { kind, proc_index, payload: payload@ }).wire(),
{
    let mut out = bytes32((payload.len() + 5) as u32);
    out.push(kind);
    let mut who = bytes32(proc_index);
    out.append(&mut who);
    let mut rest = cut(payload.as_slice(), 0, payload.len());
    assert(rest@ =~= payload@);
    out.append(&mut rest);
    assert(out@ =~= (FrameView { kind, proc_index, payload: payload@ }).wire());
    out
}

/// Take the complete frames off what has arrived.
pub fn drain(buf: &mut Vec<u8>) -> (r: Vec<Frame>)
    ensures
        (said(r@), final(buf)@) == drained(old(buf)@),
{
    let ghost all = buf@;
    let n: usize = buf.len();
    let mut at: usize = 0;
    let mut out: Vec<Frame> = Vec::new();
    assert(all.skip(0) =~= all);
    assert(said(out@) + drained(all).0 =~= drained(all).0);
    loop
        invariant
            at <= n == buf@.len(),
            all == buf@,
            drained(all) == (said(out@) + drained(all.skip(at as int)).0, drained(
                all.skip(at as int),
            ).1),
        ensures
            first_len(all.skip(at as int)) is None,
        decreases n - at,
    {
        let ghost rest = all.skip(at as int);
        if n - at < 4 {
            break;
        }
        let head: u32 = u32_at(buf.as_slice(), at).unwrap();
        assert(head == bytes::at32(rest, 0));
        if head < 5 || ((n - at - 4) as u64) < head as u64 {
            break;
        }
        let len: usize = head as usize;
        let proc_index: u32 = u32_at(buf.as_slice(), at + 5).unwrap();
        let payload = cut(buf.as_slice(), at + 9, at + 4 + len);
        let f = Frame { kind: buf[at + 4], proc_index, payload };
        let ghost was = said(out@);
        proof {
            assert(payload@ =~= rest.subrange(9, 4 + len));
            assert(f@ == first_frame(rest, len as int));
            assert(rest.skip(4 + len) =~= all.skip(at + 4 + len));
            assert(was + (seq![f@] + drained(all.skip(at + 4 + len)).0) =~= was.push(f@) + drained(
                all.skip(at + 4 + len),
            ).0);
        }
        out.push(f);
        assert(said(out@) =~= was.push(f@));
        at += 4 + len;
    }
    let left = cut(buf.as_slice(), at, n);
    assert(left@ =~= all.skip(at as int));
    *buf = left;
    assert(said(out@) + Seq::<FrameView>::empty() =~= said(out@));
    out
}

/// A frame that was sent is the next to be read, whatever comes after it.
pub proof fn a_frame_reads_back(f: FrameView, rest: Seq<u8>)
    requires
        f.payload.len() + 5 <= u32::MAX,
    ensures
        drained(f.wire() + rest) == (seq![f] + drained(rest).0, drained(rest).1),
{
    let b = f.wire() + rest;
    let len = (f.payload.len() + 5) as u32;
    assert(b.subrange(0, 4) =~= bytes::le32(len));
    assert(b.subrange(5, 9) =~= bytes::le32(f.proc_index));
    bytes::lemma_at32(b, 0, len);
    bytes::lemma_at32(b, 5, f.proc_index);
    assert(b[4] == f.kind);
    assert(b.subrange(9, 4 + len) =~= f.payload);
    assert(b.skip(4 + len) =~= rest);
    assert(first_frame(b, len as int) =~= f);
}

/// The launcher's reply: an errno, the length of what follows, and that
pub open spec fn reply_wire(errno: i32, payload: Seq<u8>) -> Seq<u8> {
    bytes::le32(errno as u32) + bytes::le32(payload.len() as u32) + payload
}

pub fn reply(errno: i32, payload: &Vec<u8>) -> (r: Vec<u8>)
    requires
        payload@.len() <= u32::MAX,
    ensures
        r@ == reply_wire(errno, payload@),
{
    let mut out = bytes32(errno as u32);
    let mut len = bytes32(payload.len() as u32);
    out.append(&mut len);
    let mut rest = cut(payload.as_slice(), 0, payload.len());
    assert(rest@ =~= payload@);
    out.append(&mut rest);
    assert(out@ =~= reply_wire(errno, payload@));
    out
}

/// The head of a reply: its errno, and how many bytes follow
pub fn reply_head(head: &Vec<u8>) -> (r: (i32, u32))
    requires
        head@.len() == 8,
    ensures
        r.0 == bytes::at32(head@, 0) as i32,
        r.1 == bytes::at32(head@, 4),
{
    (u32_at(head.as_slice(), 0).unwrap() as i32, u32_at(head.as_slice(), 4).unwrap())
}

/// What a reply comes to: its payload, or an errno
pub fn answer(errno: i32, body: Vec<u8>) -> (r: Result<Vec<u8>, i32>)
    ensures
        r == (if errno == 0 {
            Ok(body)
        } else {
            Err(errno)
        }),
{
    if errno == 0 {
        Ok(body)
    } else {
        Err(errno)
    }
}

/// A reply's head says its errno and the length of its payload, which
/// follows.
pub proof fn a_reply_reads_back(errno: i32, payload: Seq<u8>)
    requires
        payload.len() <= u32::MAX,
    ensures
        ({
            let b = reply_wire(errno, payload);
            &&& bytes::at32(b, 0) as i32 == errno
            &&& bytes::at32(b, 4) == payload.len()
            &&& b.skip(8) == payload
        }),
{
    let b = reply_wire(errno, payload);
    let e = errno as u32;
    assert(b.subrange(0, 4) =~= bytes::le32(e));
    assert(b.subrange(4, 8) =~= bytes::le32(payload.len() as u32));
    bytes::lemma_at32(b, 0, e);
    bytes::lemma_at32(b, 4, payload.len() as u32);
    assert(e as i32 == errno) by (bit_vector)
        requires
            e == errno as u32,
    ;
    assert(b.skip(8) =~= payload);
}

/// What a guest that has started a process says of it: its index, and its
/// real pid
pub fn spawned(child: u32, real_pid: i32) -> (r: Vec<u8>)
    ensures
        r@ == bytes::le32(child) + bytes::le32(real_pid as u32),
{
    let mut out = bytes32(child);
    let mut pid = bytes32(real_pid as u32);
    out.append(&mut pid);
    out
}

/// What a frame asks of the launcher
pub enum Request {
    /// Where is the rewritten form of this program?
    Program(Vec<u8>),
    /// Process `child` of the run has this real pid.
    Spawned { child: u32, pid: i32 },
    /// The report of process `from`
    Report { from: u32, text: String },
    Unknown(u8),
}

pub open spec fn asks(f: FrameView, r: Request) -> bool {
    match r {
        Request::Program(path) => f.kind == MSG_SPAWN && path@ == f.payload,
        Request::Spawned { child, pid } => {
            &&& f.kind == MSG_SPAWNED
            &&& f.payload.len() == 8
            &&& child == bytes::at32(f.payload, 0)
            &&& pid == bytes::at32(f.payload, 4) as i32
        },
        Request::Report { from, text } => {
            &&& f.kind == MSG_REPORT
            &&& from == f.proc_index
            &&& text@ == macho::read_text(f.payload)
        },
        Request::Unknown(kind) => {
            &&& kind == f.kind
            &&& f.kind != MSG_SPAWN
            &&& f.kind != MSG_REPORT
            &&& !(f.kind == MSG_SPAWNED && f.payload.len() == 8)
        },
    }
}

/// What a frame asks
pub fn request(f: Frame) -> (r: Request)
    ensures
        asks(f@, r),
{
    if f.kind == MSG_SPAWN {
        return Request::Program(f.payload);
    }
    if f.kind == MSG_SPAWNED && f.payload.len() == 8 {
        let child: u32 = u32_at(f.payload.as_slice(), 0).unwrap();
        let pid: i32 = u32_at(f.payload.as_slice(), 4).unwrap() as i32;
        return Request::Spawned { child, pid };
    }
    if f.kind == MSG_REPORT {
        return Request::Report { from: f.proc_index, text: macho::lossy(f.payload.as_slice()) };
    }
    Request::Unknown(f.kind)
}

} // verus!
