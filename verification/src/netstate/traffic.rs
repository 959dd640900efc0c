//! What travels on the virtual network: streams, datagrams, and the flights
//! between hosts.

use vstd::prelude::*;
use super::{
    loopback, Addr, Flight, Net, NetError, NetView, Sock, SockView, DGRAM_HEADER, FAMILY_INET, FAMILY_UNIX,
    FLIGHT_HEADER, KIND_DGRAM, K_BYTES, K_DGRAM, K_FIN, LOOPBACK, MAX_DGRAM, MAX_SOCKETS, S_BOUND,
    S_CONNECTED, S_LISTENING, S_NEW,
};
use crate::bytes;
use crate::bytes::{bytes32, put_u64, u16_at, u32_at, u64_at};
use crate::errno::Errno;
use crate::netstate;
use crate::ring::RING;

verus! {

/// What travels between two sockets
pub enum Payload<'a> {
    Bytes(&'a [u8]),
    Datagram { from: &'a Addr, data: &'a [u8] },
    /// The sender closed or shut down its sending side
    Fin,
}

pub enum PayloadView {
    Bytes(Seq<u8>),
    Datagram { from: Addr, data: Seq<u8> },
    Fin,
}

impl<'a> View for Payload<'a> {
    type V = PayloadView;

    open spec fn view(&self) -> PayloadView {
        match *self {
            Payload::Bytes(b) => PayloadView::Bytes(b@),
            Payload::Datagram { from, data } => PayloadView::Datagram { from: *from, data: data@ },
            Payload::Fin => PayloadView::Fin,
        }
    }
}

impl PayloadView {
    /// It may go to a socket of that kind.
    pub open spec fn suits(self, kind: u8) -> bool {
        match self {
            PayloadView::Bytes(_) => kind != KIND_DGRAM,
            PayloadView::Datagram { from, data } => kind == KIND_DGRAM && from.wf() && data.len()
                <= MAX_DGRAM,
            PayloadView::Fin => true,
        }
    }
}

pub open spec fn least(a: int, b: int) -> int {
    if a < b {
        a
    } else {
        b
    }
}

impl SockView {
    /// Bytes its receive ring has left
    pub open spec fn left(self) -> int {
        RING - self.rx.len()
    }

    /// What its flight ring can hold while keeping room for a FIN's header
    pub open spec fn room(self) -> int {
        let left = RING - self.flight_len() - 2 * FLIGHT_HEADER;
        if left < 0 {
            0
        } else {
            left
        }
    }

    /// Stream bytes it can take now: what its receive ring has left after
    /// the bytes already in flight to it, and what the flight ring can hold
    pub open spec fn window(self) -> int {
        let window = self.left() - netstate::stream_bytes(self.flights);
        if self.flights.len() == 0 {
            window
        } else {
            least(window, self.room())
        }
    }

    /// A payload has reached it, of which so many bytes were taken: a stream
    /// takes what fits, a datagram is all or nothing.
    pub open spec fn arrived(self, p: PayloadView) -> (SockView, int) {
        match p {
            PayloadView::Fin => (SockView { fin: true, ..self }, 0),
            PayloadView::Bytes(b) => {
                let n = least(b.len() as int, self.left());
                (
                    SockView {
                        rx: self.rx + b.take(n),
                        bytes_in: self.bytes_in.wrapping_add(n as u64),
                        ..self
                    },
                    n,
                )
            },
            PayloadView::Datagram { from, data } => if netstate::datagram(from, data).len()
                > self.left() {
                (self, 0)
            } else {
                (
                    SockView {
                        rx: self.rx + netstate::datagram(from, data),
                        bytes_in: self.bytes_in.wrapping_add(data.len() as u64),
                        ..self
                    },
                    data.len() as int,
                )
            },
        }
    }

    /// With one more flight
    pub open spec fn with_flight(self, f: Flight) -> SockView {
        SockView { flights: self.flights.push(f), ..self }
    }

    /// What is launched to it at a payload's sending, and how many bytes of
    /// the payload that takes; none where there is no room
    pub open spec fn flight_of(self, due: u64, p: PayloadView) -> Option<(Flight, int)> {
        match p {
            PayloadView::Fin => if self.flight_len() + FLIGHT_HEADER > RING {
                None
            } else {
                Some((Flight { due, kind: K_FIN, body: Seq::empty() }, 0))
            },
            PayloadView::Bytes(b) => {
                let n = least(least(b.len() as int, self.window()), self.room());
                if n <= 0 {
                    None
                } else {
                    Some((Flight { due, kind: K_BYTES, body: b.take(n) }, n))
                }
            },
            PayloadView::Datagram { from, data } => if netstate::datagram(from, data).len()
                > self.room() {
                None
            } else {
                Some(
                    (
                        Flight { due, kind: K_DGRAM, body: netstate::datagram(from, data) },
                        data.len() as int,
                    ),
                )
            },
        }
    }

    /// How many payload bytes its first flight brings
    pub open spec fn brings(self) -> u64 {
        let f = self.flights[0];
        if f.kind == K_BYTES {
            f.body.len() as u64
        } else if f.kind == K_DGRAM && f.body.len() <= self.left() {
            bytes::at32(f.body, 0) as u64
        } else {
            0
        }
    }

    /// Its first flight is a datagram for which there is no room.
    pub open spec fn loses(self) -> bool {
        self.flights[0].kind == K_DGRAM && self.flights[0].body.len() > self.left()
    }

    /// Its first flight has arrived.
    pub open spec fn landed(self) -> SockView {
        let f = self.flights[0];
        let s = SockView { flights: self.flights.skip(1), ..self };
        if f.kind == K_FIN {
            SockView { fin: true, ..s }
        } else if self.loses() {
            s
        } else {
            SockView {
                rx: s.rx + f.body,
                bytes_in: s.bytes_in.wrapping_add(self.brings()),
                ..s
            }
        }
    }
}

/// A flight goes behind the others.
proof fn lemma_records_push(q: Seq<Flight>, f: Flight)
    ensures
        netstate::records(q.push(f)) == netstate::records(q) + f.record(),
        netstate::stream_bytes(q.push(f)) == netstate::stream_bytes(q) + (if f.kind == K_BYTES {
            f.body.len() as int
        } else {
            0
        }),
    decreases q.len(),
{
    reveal_with_fuel(netstate::records, 2);
    reveal_with_fuel(netstate::stream_bytes, 2);
    if q.len() == 0 {
        assert(q.push(f).skip(1) =~= Seq::<Flight>::empty());
        assert(netstate::records(q.push(f)) =~= f.record());
        assert(netstate::records(q) + f.record() =~= f.record());
    } else {
        assert(q.push(f).skip(1) =~= q.skip(1).push(f));
        lemma_records_push(q.skip(1), f);
        assert(netstate::records(q.push(f)) =~= netstate::records(q) + f.record());
    }
}

/// Every record has a header.
proof fn lemma_records_len(q: Seq<Flight>)
    ensures
        netstate::records(q).len() >= FLIGHT_HEADER * q.len(),
        q.len() == 0 <==> netstate::records(q).len() == 0,
    decreases q.len(),
{
    if q.len() > 0 {
        lemma_records_len(q.skip(1));
    }
}

/// Where nothing in flight is of a stream, no stream bytes are.
proof fn lemma_no_stream(q: Seq<Flight>)
    requires
        forall|i: int| 0 <= i < q.len() ==> (#[trigger] q[i]).kind != K_BYTES,
    ensures
        netstate::stream_bytes(q) == 0,
    decreases q.len(),
{
    if q.len() > 0 {
        assert forall|i: int| 0 <= i < q.skip(1).len() implies (#[trigger] q.skip(1)[i]).kind
            != K_BYTES by {
            assert(q.skip(1)[i] == q[i + 1]);
        }
        lemma_no_stream(q.skip(1));
    }
}

/// What is sent in a datagram is what its receiver reads: the source, the
/// payload, and behind it what follows.
pub proof fn a_datagram_reads_back(from: Addr, data: Seq<u8>, rest: Seq<u8>)
    requires
        from.wf(),
        data.len() <= MAX_DGRAM,
    ensures
        ({
            let rx = netstate::datagram(from, data) + rest;
            &&& netstate::datagram(from, data).len() == DGRAM_HEADER + from.path_len + data.len()
            &&& netstate::starts_whole(rx)
            &&& netstate::dgram_len(rx) == netstate::datagram(from, data).len()
            &&& bytes::at32(rx, 0) == data.len()
            &&& bytes::at32(rx, 4) == from.ip
            &&& bytes::at16(rx, 8) == from.port
            &&& rx[10] == from.family
            &&& rx[11] == from.path_len
            &&& rx.subrange(DGRAM_HEADER as int, DGRAM_HEADER + from.path_len) == from.path_bytes()
            &&& rx.subrange(
                DGRAM_HEADER + from.path_len,
                DGRAM_HEADER + from.path_len + data.len(),
            ) == data
            &&& rx.skip(netstate::dgram_len(rx)) == rest
        }),
{
    let d = netstate::datagram(from, data);
    let rx = d + rest;
    assert(d.len() == DGRAM_HEADER + from.path_len + data.len());
    assert(rx.subrange(0, 4) =~= bytes::le32(data.len() as u32));
    assert(rx.subrange(4, 8) =~= bytes::le32(from.ip));
    bytes::lemma_at32(rx, 0, data.len() as u32);
    bytes::lemma_at32(rx, 4, from.ip);
    assert(rx[8] == bytes::le16(from.port)[0] && rx[9] == bytes::le16(from.port)[1]);
    assert(rx.subrange(DGRAM_HEADER as int, DGRAM_HEADER + from.path_len) =~= from.path_bytes());
    assert(rx.subrange(
        DGRAM_HEADER + from.path_len,
        DGRAM_HEADER + from.path_len + data.len(),
    ) =~= data);
    assert(rx.skip(netstate::dgram_len(rx)) =~= rest);
}

/// A whole datagram is one.
proof fn lemma_one_datagram(b: Seq<u8>)
    requires
        netstate::starts_whole(b),
        netstate::dgram_len(b) == b.len(),
    ensures
        netstate::datagrams(b),
{
    reveal_with_fuel(netstate::datagrams, 2);
    assert(b.skip(b.len() as int) =~= Seq::<u8>::empty());
}

/// Whole datagrams behind whole datagrams
proof fn lemma_datagrams_add(a: Seq<u8>, b: Seq<u8>)
    requires
        netstate::datagrams(a),
        netstate::datagrams(b),
    ensures
        netstate::datagrams(a + b),
    decreases a.len(),
{
    if a.len() == 0 {
        assert(a + b =~= b);
    } else {
        let n = netstate::dgram_len(a);
        assert(netstate::dgram_len(a + b) == n);
        assert((a + b).skip(n) =~= a.skip(n) + b);
        lemma_datagrams_add(a.skip(n), b);
    }
}

fn dgram_body(from: &Addr, data: &[u8]) -> (r: Vec<u8>)
    requires
        from.wf(),
        data@.len() <= MAX_DGRAM,
    ensures
        r@ == netstate::datagram(*from, data@),
        r@.len() == DGRAM_HEADER + from.path_len + data@.len(),
{
    let mut r = bytes32(data.len() as u32);
    let mut ip = bytes32(from.ip);
    r.append(&mut ip);
    r.push((from.port % 0x100) as u8);
    r.push((from.port / 0x100) as u8);
    r.push(from.family);
    r.push(from.path_len);
    r.extend_from_slice(from.path());
    r.extend_from_slice(data);
    assert(r@ =~= netstate::datagram(*from, data@));
    r
}

fn min(a: usize, b: usize) -> (r: usize)
    ensures
        r == least(a as int, b as int),
{
    if a < b {
        a
    } else {
        b
    }
}

impl Sock {
    fn room(&self) -> (r: usize)
        requires
            self.wf(),
        ensures
            r == self@.room(),
            r <= RING,
    {
        reveal(Sock::wf);
        reveal(SockView::wf);
        let used: usize = self.flight.len() + 2 * FLIGHT_HEADER;
        if used > RING {
            0
        } else {
            RING - used
        }
    }

    fn window(&self) -> (r: usize)
        requires
            self.wf(),
        ensures
            r == self@.window(),
            r <= RING - self@.rx.len(),
    {
        reveal(Sock::wf);
        reveal(SockView::wf);
        proof {
            lemma_records_len(self@.flights);
            netstate::lemma_stream_positive(self@.flights);
        }
        let window: usize = RING - self.rx.len() - self.fl_stream;
        if self.flight.len() == 0 {
            return window;
        }
        min(window, self.room())
    }

    /// The payload reaches the socket now.
    fn arrive(&mut self, payload: &Payload) -> (taken: usize)
        requires
            old(self).wf(),
            old(self)@.flights.len() == 0,
            payload@.suits(old(self)@.kind),
        ensures
            final(self).wf(),
            (final(self)@, taken as int) == old(self)@.arrived(payload@),
            taken <= RING,
    {
        let free: usize = RING - self.waiting();
        match payload {
            Payload::Fin => {
                self.mark_fin();
                0
            },
            Payload::Bytes(b) => {
                let n: usize = min(b.len(), free);
                let part = vstd::slice::slice_subrange(*b, 0, n);
                assert(part@ =~= b@.take(n as int));
                self.append(part, n as u64);
                n
            },
            Payload::Datagram { from, data } => {
                let body = dgram_body(*from, *data);
                if body.len() > free {
                    return 0;
                }
                proof {
                    a_datagram_reads_back(**from, data@, Seq::empty());
                    assert(body@ + Seq::<u8>::empty() =~= body@);
                    lemma_one_datagram(body@);
                }
                self.append(body.as_slice(), data.len() as u64);
                data.len()
            },
        }
    }

    /// Put a flight behind the others, for which there must be room.
    fn fly(&mut self, due: u64, kind: u8, body: &[u8])
        requires
            old(self).wf(),
            (Flight { due, kind, body: body@ }).wf(),
            kind == K_BYTES ==> old(self)@.kind != KIND_DGRAM && old(self)@.rx.len()
                + netstate::stream_bytes(old(self)@.flights) + body@.len() <= RING,
            kind == K_DGRAM ==> old(self)@.kind == KIND_DGRAM,
            kind != K_FIN ==> body@.len() <= old(self)@.room() && old(self)@.room() > 0,
            kind == K_FIN ==> old(self)@.flight_len() + FLIGHT_HEADER <= RING,
        ensures
            final(self).wf(),
            final(self)@ == old(self)@.with_flight(Flight { due, kind, body: body@ }),
    {
        reveal(Sock::wf);
        reveal(SockView::wf);
        let ghost f = Flight { due, kind, body: body@ };
        let mut header: Vec<u8> = vec![0; 8];
        put_u64(&mut header, 0, due);
        assert(header@ =~= bytes::le64(due));
        header.push(kind);
        let mut len = bytes32(body.len() as u32);
        header.append(&mut len);
        self.flight.push(header.as_slice());
        self.flight.push(body);
        if kind == K_BYTES {
            self.fl_stream = self.fl_stream + body.len();
        }
        self.queue = Ghost(self.queue@.push(f));
        proof {
            lemma_records_push(old(self)@.flights, f);
            assert(self.flight@ =~= netstate::records(self.queue@));
            if kind == K_FIN {
                assert(self@.flights[self@.flights.len() - 1].kind == K_FIN);
            }
            if netstate::has_fin(old(self)@.flights) {
                let k = choose|k: int|
                    0 <= k < old(self)@.flights.len() && (#[trigger] old(self)@.flights[k]).kind
                        == K_FIN;
                assert(self@.flights[k].kind == K_FIN);
            }
        }
    }

    /// Put the payload in flight to the socket, to arrive at `due`. Stream
    /// bytes in flight count against the receiver's window, so what is
    /// launched always fits on arrival; room for one more header is kept so
    /// a FIN can always follow.
    fn launch(&mut self, due: u64, payload: &Payload) -> (taken: Option<usize>)
        requires
            old(self).wf(),
            payload@.suits(old(self)@.kind),
        ensures
            final(self).wf(),
            match old(self)@.flight_of(due, payload@) {
                None => taken is None && final(self)@ == old(self)@,
                Some((f, n)) => taken == Some(n as usize) && n <= RING && final(self)@ == old(
                    self,
                )@.with_flight(f),
            },
    {
        let room: usize = self.room();
        match payload {
            Payload::Fin => {
                let used: usize = self.flight_used();
                if used + FLIGHT_HEADER > RING {
                    return None;
                }
                let none: Vec<u8> = Vec::new();
                assert(none@ =~= Seq::<u8>::empty());
                self.fly(due, K_FIN, none.as_slice());
                Some(0)
            },
            Payload::Bytes(b) => {
                let n: usize = min(min(b.len(), self.window()), room);
                if n == 0 {
                    return None;
                }
                let part = vstd::slice::slice_subrange(*b, 0, n);
                assert(part@ =~= b@.take(n as int));
                self.fly(due, K_BYTES, part);
                Some(n)
            },
            Payload::Datagram { from, data } => {
                let body = dgram_body(*from, *data);
                if body.len() > room {
                    return None;
                }
                proof {
                    a_datagram_reads_back(**from, data@, Seq::empty());
                    assert(body@ + Seq::<u8>::empty() =~= body@);
                }
                self.fly(due, K_DGRAM, body.as_slice());
                Some(data.len())
            },
        }
    }

    fn flight_used(&self) -> (r: usize)
        requires
            self.wf(),
        ensures
            r == self@.flight_len(),
            r <= RING,
            r == 0 <==> self@.flights.len() == 0,
    {
        reveal(Sock::wf);
        reveal(SockView::wf);
        proof {
            lemma_records_len(self@.flights);
        }
        self.flight.len()
    }

    /// When the first flight is due
    fn first_due(&self) -> (r: u64)
        requires
            self.wf(),
            self@.flights.len() > 0,
        ensures
            r == self@.flights[0].due,
    {
        reveal(Sock::wf);
        reveal(SockView::wf);
        let header = self.flight.copy(0, FLIGHT_HEADER);
        proof {
            lemma_header(self@.flights, header@);
        }
        u64_at(header.as_slice(), 0).unwrap()
    }

    /// Take the first flight out of its ring: its kind and its body.
    fn take_flight(&mut self) -> (r: (u8, Vec<u8>))
        requires
            old(self).wf(),
            old(self)@.flights.len() > 0,
        ensures
            final(self).wf(),
            final(self)@ == (SockView { flights: old(self)@.flights.skip(1), ..old(self)@ }),
            r.0 == old(self)@.flights[0].kind,
            r.1@ == old(self)@.flights[0].body,
            final(self)@.left() >= 0,
            old(self)@.flights[0].wf(),
            r.0 == K_BYTES ==> final(self)@.kind != KIND_DGRAM && r.1@.len()
                + netstate::stream_bytes(final(self)@.flights) <= final(self)@.left(),
            r.0 == K_DGRAM ==> final(self)@.kind == KIND_DGRAM,
    {
        reveal(Sock::wf);
        reveal(SockView::wf);
        let ghost q = self@.flights;
        let header = self.flight.copy(0, FLIGHT_HEADER);
        proof {
            lemma_header(q, header@);
        }
        let kind: u8 = header[8];
        let len: usize = u32_at(header.as_slice(), 9).unwrap() as usize;
        let body = self.flight.copy(FLIGHT_HEADER, len);
        self.flight.skip(FLIGHT_HEADER + len);
        if kind == K_BYTES {
            proof {
                netstate::lemma_stream_positive(q.skip(1));
            }
            self.fl_stream = self.fl_stream - len;
        }
        self.queue = Ghost(q.skip(1));
        proof {
            assert(self@ =~= SockView { flights: q.skip(1), ..old(self)@ });
            netstate::lemma_stream_positive(q.skip(1));
            assert forall|i: int| 0 <= i < q.skip(1).len() implies (#[trigger] q.skip(1)[i]).wf()
                && (q.skip(1)[i].kind == K_BYTES ==> self.kind != KIND_DGRAM) && (
            q.skip(1)[i].kind == K_DGRAM ==> self.kind == KIND_DGRAM) by {
                assert(q.skip(1)[i] == q[i + 1]);
            }
        }
        (kind, body)
    }

    /// A body goes behind what has arrived.
    fn append(&mut self, body: &[u8], taken: u64)
        requires
            old(self).wf(),
            body@.len() + netstate::stream_bytes(old(self)@.flights) <= old(self)@.left(),
            old(self)@.kind == KIND_DGRAM ==> netstate::datagrams(body@),
        ensures
            final(self).wf(),
            final(self)@ == (SockView {
                rx: old(self)@.rx + body@,
                bytes_in: old(self)@.bytes_in.wrapping_add(taken),
                ..old(self)@
            }),
    {
        reveal(Sock::wf);
        reveal(SockView::wf);
        proof {
            netstate::lemma_stream_positive(self@.flights);
            if self.kind == KIND_DGRAM {
                lemma_datagrams_add(self@.rx, body@);
            }
        }
        self.rx.push(body);
        self.bytes_in = self.bytes_in.wrapping_add(taken);
        assert(self@ =~= SockView {
            rx: old(self)@.rx + body@,
            bytes_in: old(self)@.bytes_in.wrapping_add(taken),
            ..old(self)@
        });
    }

    fn mark_fin(&mut self)
        requires
            old(self).wf(),
        ensures
            final(self).wf(),
            final(self)@ == (SockView { fin: true, ..old(self)@ }),
    {
        reveal(Sock::wf);
        reveal(SockView::wf);
        self.fin = true;
        assert(self@ =~= SockView { fin: true, ..old(self)@ });
    }

    /// The first flight arrives. Returns how many payload bytes it brings,
    /// or none where it is lost.
    fn land(&mut self) -> (r: Option<u64>)
        requires
            old(self).wf(),
            old(self)@.flights.len() > 0,
        ensures
            final(self).wf(),
            final(self)@ == old(self)@.landed(),
            r == (if old(self)@.loses() {
                None
            } else {
                Some(old(self)@.brings())
            }),
    {
        let (kind, body) = self.take_flight();
        if kind == K_FIN {
            self.mark_fin();
            return Some(0);
        }
        let len: usize = body.len();
        if kind == K_BYTES {
            self.append(body.as_slice(), len as u64);
            return Some(len as u64);
        }
        let data_len: u64 = u32_at(body.as_slice(), 0).unwrap() as u64;
        if len > RING - self.waiting() {
            return None;
        }
        proof {
            lemma_one_datagram(body@);
            reveal(Sock::wf);
            reveal(SockView::wf);
            lemma_no_stream(self@.flights);
        }
        self.append(body.as_slice(), data_len);
        Some(data_len)
    }
}

/// The header of the first record
proof fn lemma_header(q: Seq<Flight>, header: Seq<u8>)
    requires
        q.len() > 0,
        q[0].wf(),
        netstate::records(q).len() <= RING,
    ensures
        netstate::records(q).len() >= FLIGHT_HEADER + q[0].body.len(),
        header == netstate::records(q).subrange(0, FLIGHT_HEADER as int) ==> bytes::at64(header, 0)
            == q[0].due && header[8] == q[0].kind && bytes::at32(header, 9) == q[0].body.len(),
        netstate::records(q).subrange(FLIGHT_HEADER as int, FLIGHT_HEADER + q[0].body.len())
            == q[0].body,
        netstate::records(q).skip((FLIGHT_HEADER + q[0].body.len()) as int) == netstate::records(
            q.skip(1),
        ),
{
    let f = q[0];
    let all = netstate::records(q);
    assert(all == f.record() + netstate::records(q.skip(1)));
    assert(all.subrange(FLIGHT_HEADER as int, FLIGHT_HEADER + f.body.len()) =~= f.body);
    assert(all.skip((FLIGHT_HEADER + f.body.len()) as int) =~= netstate::records(q.skip(1)));
    if header == all.subrange(0, FLIGHT_HEADER as int) {
        let lo = (f.due % 0x1_0000_0000) as u32;
        let hi = (f.due / 0x1_0000_0000) as u32;
        assert(header.subrange(0, 4) =~= bytes::le32(lo));
        assert(header.subrange(4, 8) =~= bytes::le32(hi));
        assert(header.subrange(9, 13) =~= bytes::le32(f.body.len() as u32));
        bytes::lemma_at32(header, 0, lo);
        bytes::lemma_at32(header, 4, hi);
        bytes::lemma_at32(header, 9, f.body.len() as u32);
    }
}

impl NetView {
    /// A payload has reached `dst`.
    pub open spec fn reached(self, dst: int, p: PayloadView) -> (NetView, int) {
        let (s, taken) = self.socks[dst].arrived(p);
        (NetView { bytes: self.bytes.wrapping_add(taken as u64), ..self.with_sock(dst, s) }, taken)
    }

    /// A payload is on its way to `dst`, where there is room for it.
    pub open spec fn sent_off(self, dst: int, due: u64, p: PayloadView) -> (NetView, int) {
        match self.socks[dst].flight_of(due, p) {
            None => (self, 0),
            Some((f, taken)) => (self.flown(dst, f), taken),
        }
    }

    /// With one more flight to `dst`
    pub open spec fn flown(self, dst: int, f: Flight) -> NetView {
        let in_flight = more(self.in_flight, 1);
        NetView {
            in_flight,
            due: if in_flight == 1 || f.due < self.due {
                f.due
            } else {
                self.due
            },
            ..self.with_sock(dst, self.socks[dst].with_flight(f))
        }
    }

    /// A payload from a socket of `src_host` to `dst`. Between different
    /// hosts it takes the latency, within one it arrives at once; but
    /// nothing overtakes what is already in flight to the socket.
    pub open spec fn delivered(self, src_host: u32, dst: int, p: PayloadView) -> (NetView, int) {
        let d = self.socks[dst];
        let delay = if d.host == src_host {
            0
        } else {
            self.latency_ns
        };
        if delay == 0 && d.flights.len() == 0 {
            self.reached(dst, p)
        } else {
            self.sent_off(dst, more(self.now, delay), p)
        }
    }

    /// When the next payload in flight is due, if any is
    pub open spec fn next_due(self) -> Option<u64> {
        if self.in_flight > 0 {
            Some(self.due)
        } else {
            None
        }
    }

    /// The first flight to socket `i` has arrived.
    pub open spec fn landed(self, i: int) -> NetView {
        let s = self.socks[i];
        NetView {
            in_flight: (self.in_flight - 1) as u64,
            bytes: if s.loses() {
                self.bytes
            } else {
                self.bytes.wrapping_add(s.brings())
            },
            dropped: if s.loses() {
                self.dropped.wrapping_add(1)
            } else {
                self.dropped
            },
            ..self.with_sock(i, s.landed())
        }
    }

    /// Everything due at `now` to the sockets from number `i` on has
    /// arrived, one flight after the other.
    pub open spec fn settled(self, now: u64, i: int) -> NetView
        decreases
            (if i < MAX_SOCKETS {
                MAX_SOCKETS - i
            } else {
                0
            }),
            self.socks[i].flights.len(),
    {
        if i < 0 || i >= MAX_SOCKETS || i >= self.socks.len() {
            self
        } else if self.socks[i].flights.len() == 0 || self.socks[i].flights[0].due > now {
            self.settled(now, i + 1)
        } else {
            self.landed(i).settled(now, i)
        }
    }

    /// The clock is now `now`; whether anything arrived. Nothing does where
    /// all that is due waits behind something that is not.
    pub open spec fn advanced(self, now: u64) -> (NetView, bool) {
        let net = NetView { now, ..self };
        if self.in_flight == 0 || self.due > now {
            (net, false)
        } else {
            let net = net.settled(now, 0);
            (
                NetView { due: earliest(net.socks, MAX_SOCKETS as int), ..net },
                net.in_flight < self.in_flight,
            )
        }
    }
}

/// The sum, or the largest number where that is too large
pub open spec fn more(a: u64, b: u64) -> u64 {
    if a + b > u64::MAX {
        u64::MAX
    } else {
        (a + b) as u64
    }
}

/// When the first of the flights to the first `n` sockets is due
pub open spec fn earliest(socks: Seq<SockView>, n: int) -> u64
    decreases n,
{
    if n <= 0 {
        u64::MAX
    } else {
        let before = earliest(socks, n - 1);
        let s = socks[n - 1];
        if s.flights.len() > 0 && s.flights[0].due < before {
            s.flights[0].due
        } else {
            before
        }
    }
}

/// Landing only lowers the number of payloads in flight, and where it
/// stays the same nothing has landed.
pub proof fn lemma_settled_count(net: NetView, now: u64, i: int)
    requires
        0 <= i,
        net.socks.len() == MAX_SOCKETS,
        netstate::flying(net.socks, MAX_SOCKETS as int) <= net.in_flight,
    ensures
        net.settled(now, i).in_flight <= net.in_flight,
        net.settled(now, i).in_flight == net.in_flight ==> net.settled(now, i).socks == net.socks,
    decreases
            (if i < MAX_SOCKETS {
                MAX_SOCKETS - i
            } else {
                0
            }),
            net.socks[i].flights.len(),
{
    if i < MAX_SOCKETS {
        let s = net.socks[i];
        if s.flights.len() == 0 || s.flights[0].due > now {
            lemma_settled_count(net, now, i + 1);
        } else {
            netstate::lemma_flying_some(net.socks, i, MAX_SOCKETS as int);
            netstate::lemma_flying_update(net.socks, i, s.landed(), MAX_SOCKETS as int);
            lemma_settled_count(net.landed(i), now, i);
        }
    }
}

/// Later sockets do not matter.
proof fn lemma_earliest(a: Seq<SockView>, b: Seq<SockView>, n: int)
    requires
        n <= a.len(),
        n <= b.len(),
        forall|k: int| 0 <= k < n ==> a[k] == b[k],
    ensures
        earliest(a, n) == earliest(b, n),
    decreases n,
{
    if n > 0 {
        lemma_earliest(a, b, n - 1);
    }
}

impl Net {
    pub fn readable(&self, sock: u32) -> (r: bool)
        requires
            self.wf(),
            sock < MAX_SOCKETS,
        ensures
            r == ({
                let s = self@.socks[sock as int];
                if s.kind == KIND_DGRAM {
                    s.rx.len() > 0
                } else if s.state == S_LISTENING {
                    s.backlog.len() > 0
                } else if s.state == S_CONNECTED {
                    s.rx.len() > 0 || s.fin || s.shut_rd
                } else {
                    true
                }
            }),
    {
        proof {
            netstate::lemma_at(*self, sock as int);
        }
        reveal(Sock::wf);
        let s = &self.socks[sock as usize];
        if s.kind == KIND_DGRAM {
            s.rx.len() > 0
        } else if s.state == S_LISTENING {
            s.backlog.len() > 0
        } else if s.state == S_CONNECTED {
            s.rx.len() > 0 || s.fin || s.shut_rd
        } else {
            true
        }
    }

    pub fn writable(&self, sock: u32) -> (r: bool)
        requires
            self.wf(),
            sock < MAX_SOCKETS,
        ensures
            r == ({
                let s = self@.socks[sock as int];
                let p = self@.socks[s.far_end as int];
                s.state != S_CONNECTED || s.shut_wr || p.state != S_CONNECTED || p.shut_rd
                    || p.window() > 0
            }),
    {
        proof {
            netstate::lemma_at(*self, sock as int);
        }
        let s = &self.socks[sock as usize];
        if s.state != S_CONNECTED || s.shut_wr {
            return true;
        }
        proof {
            netstate::lemma_at(*self, s.far_end as int);
        }
        let p = &self.socks[s.far_end as usize];
        p.state != S_CONNECTED || p.shut_rd || p.window() > 0
    }

    /// The payload reaches `dst` now.
    fn arrive(&mut self, dst: u32, payload: &Payload) -> (taken: usize)
        requires
            old(self).wf(),
            dst < MAX_SOCKETS,
            old(self)@.socks[dst as int].flights.len() == 0,
            payload@.suits(old(self)@.socks[dst as int].kind),
        ensures
            final(self).wf(),
            (final(self)@, taken as int) == old(self)@.reached(dst as int, payload@),
    {
        let ghost was = *self;
        proof {
            netstate::lemma_at(was, dst as int);
        }
        let s = &mut self.socks[dst as usize];
        let taken: usize = s.arrive(payload);
        self.bytes = self.bytes.wrapping_add(taken as u64);
        proof {
            netstate::lemma_changed(was, *self, dst as int);
        }
        taken
    }

    /// Put the payload in flight to `dst`, to arrive at `deliver_at`.
    fn launch(&mut self, dst: u32, deliver_at: u64, payload: &Payload) -> (taken: usize)
        requires
            old(self).wf(),
            dst < MAX_SOCKETS,
            payload@.suits(old(self)@.socks[dst as int].kind),
        ensures
            final(self).wf(),
            (final(self)@, taken as int) == old(self)@.sent_off(dst as int, deliver_at, payload@),
    {
        let ghost was = *self;
        proof {
            netstate::lemma_at(was, dst as int);
            lemma_flying_bound(was);
        }
        let s = &mut self.socks[dst as usize];
        let taken: usize = match s.launch(deliver_at, payload) {
            Some(n) => n,
            None => {
                proof {
                    netstate::lemma_changed(was, *self, dst as int);
                    assert(self@.socks =~= was@.socks);
                }
                return 0;
            },
        };
        self.in_flight = self.in_flight.saturating_add(1);
        self.next_due = if self.in_flight == 1 || deliver_at < self.next_due {
            deliver_at
        } else {
            self.next_due
        };
        proof {
            lemma_flying(was, *self, dst as int);
        }
        taken
    }

    /// The single entry point for traffic between guests. Returns how many
    /// payload bytes were taken: a stream takes what fits in the receiver's
    /// window, a datagram is all or nothing.
    ///
    /// This is the seam for a network simulator. The policy here is a
    /// fixed latency between different hosts and none within one; a
    /// simulator would choose `deliver_at` from the two hosts and the
    /// clock, or not launch the payload at all.
    pub(super) fn deliver(&mut self, src_host: u32, dst: u32, payload: &Payload) -> (taken: usize)
        requires
            old(self).wf(),
            dst < MAX_SOCKETS,
            payload@.suits(old(self)@.socks[dst as int].kind),
        ensures
            final(self).wf(),
            (final(self)@, taken as int) == old(self)@.delivered(src_host, dst as int, payload@),
    {
        proof {
            netstate::lemma_at(*self, dst as int);
        }
        let d = &self.socks[dst as usize];
        let delay: u64 = if d.host == src_host {
            0
        } else {
            self.latency_ns
        };
        // Nothing may overtake what is already in flight to this socket
        if delay == 0 && d.flight_used() == 0 {
            return self.arrive(dst, payload);
        }
        self.launch(dst, self.now.saturating_add(delay), payload)
    }

    /// How many payloads are on their way
    pub fn in_flight(&self) -> (r: u64)
        ensures
            r == self@.in_flight,
    {
        self.in_flight
    }

    /// When the next payload in flight is due, if any is
    pub fn next_due(&self) -> (r: Option<u64>)
        ensures
            r == self@.next_due(),
    {
        if self.in_flight > 0 {
            Some(self.next_due)
        } else {
            None
        }
    }

    /// The first flight to `sock` arrives.
    fn land(&mut self, sock: u32)
        requires
            old(self).wf(),
            sock < MAX_SOCKETS,
            old(self)@.socks[sock as int].flights.len() > 0,
        ensures
            final(self).wf(),
            final(self)@ == old(self)@.landed(sock as int),
    {
        let ghost was = *self;
        proof {
            netstate::lemma_at(was, sock as int);
            reveal(Net::wf);
            netstate::lemma_flying_some(was@.socks, sock as int, MAX_SOCKETS as int);
        }
        self.in_flight = self.in_flight - 1;
        let s = &mut self.socks[sock as usize];
        match s.land() {
            Some(n) => {
                self.bytes = self.bytes.wrapping_add(n);
            },
            None => {
                self.dropped = self.dropped.wrapping_add(1);
            },
        }
        proof {
            netstate::lemma_changed(was, *self, sock as int);
        }
    }

    /// The clock is now `now`: everything due arrives. Returns whether
    /// anything did, in which case I/O waiters should look again.
    pub fn advance(&mut self, now: u64) -> (r: bool)
        requires
            old(self).wf(),
        ensures
            final(self).wf(),
            (final(self)@, r) == old(self)@.advanced(now),
    {
        let ghost was = *self;
        self.now = now;
        proof {
            netstate::lemma_kept(was, *self);
        }
        if self.in_flight == 0 || self.next_due > now {
            return false;
        }
        let flying: u64 = self.in_flight;
        let mut next: u64 = u64::MAX;
        let mut sock: u32 = 0;
        let ghost start = self@;
        while sock < 256
            invariant
                self.wf(),
                sock <= 256,
                start.settled(now, 0) == self@.settled(now, sock as int),
                next == earliest(self@.socks, sock as int),
            decreases 256 - sock,
        {
            let ghost before = self@.socks;
            proof {
                netstate::lemma_at(*self, sock as int);
            }
            let mut waiting: bool = self.socks[sock as usize].flight_used() > 0;
            while waiting
                invariant
                    self.wf(),
                    sock < 256,
                    waiting ==> self@.socks[sock as int].flights.len() > 0,
                    !waiting ==> self@.socks[sock as int].flights.len() == 0
                        || self@.socks[sock as int].flights[0].due > now,
                    !waiting ==> next == earliest(self@.socks, sock + 1),
                    waiting ==> next == earliest(self@.socks, sock as int),
                    start.settled(now, 0) == self@.settled(now, sock as int),
                decreases self@.socks[sock as int].flights.len(), waiting as int,
            {
                proof {
                    netstate::lemma_at(*self, sock as int);
                }
                let due: u64 = self.socks[sock as usize].first_due();
                if due > now {
                    if due < next {
                        next = due;
                    }
                    waiting = false;
                } else {
                    let ghost mid = self@.socks;
                    self.land(sock);
                    proof {
                        netstate::lemma_at(*self, sock as int);
                        lemma_earliest(mid, self@.socks, sock as int);
                    }
                    waiting = self.socks[sock as usize].flight_used() > 0;
                }
            }
            sock += 1;
        }
        let ghost last = *self;
        self.next_due = next;
        proof {
            netstate::lemma_at(last, 0);
            netstate::lemma_kept(last, *self);
        }
        self.in_flight < flying
    }
}

/// The ring bounds how many payloads can be in flight.
proof fn lemma_flying_bound(net: Net)
    requires
        net.wf(),
    ensures
        netstate::flying(net@.socks, MAX_SOCKETS as int) <= RING * MAX_SOCKETS,
{
    reveal(Net::wf);
    lemma_flying_most(net@.socks, MAX_SOCKETS as int);
}

proof fn lemma_flying_most(socks: Seq<SockView>, n: int)
    requires
        0 <= n <= socks.len(),
        forall|i: int| 0 <= i < socks.len() ==> (#[trigger] socks[i]).wf(),
    ensures
        netstate::flying(socks, n) <= RING * n,
    decreases n,
{
    if n > 0 {
        lemma_flying_most(socks, n - 1);
        reveal(SockView::wf);
        assert(socks[n - 1].wf());
        lemma_records_len(socks[n - 1].flights);
    }
}

/// One more flight to socket `i`
proof fn lemma_flying(was: Net, now: Net, i: int)
    requires
        was.wf(),
        0 <= i < MAX_SOCKETS,
        netstate::flying(was@.socks, MAX_SOCKETS as int) <= RING * MAX_SOCKETS,
        now.socks@.len() == MAX_SOCKETS,
        forall|k: int| 0 <= k < MAX_SOCKETS && k != i ==> now.socks@[k] == was.socks@[k],
        now.socks@[i].wf(),
        now@.hosts == was@.hosts,
        now.idents@.len() == was.idents@.len(),
        now.fdrefs@ == was.fdrefs@,
        now.socks@[i]@.state == was.socks@[i]@.state,
        now.socks@[i]@.family == was.socks@[i]@.family,
        now.socks@[i]@.host == was.socks@[i]@.host,
        now.socks@[i]@.flights.len() == was.socks@[i]@.flights.len() + 1,
        now.in_flight == more(was.in_flight, 1),
    ensures
        now.wf(),
        now@.socks == was@.socks.update(i, now.socks@[i]@),
{
    reveal(Net::wf);
    reveal(Sock::wf);
    assert(now@.socks =~= was@.socks.update(i, now.socks@[i]@));
    netstate::lemma_flying_update(was@.socks, i, now.socks@[i]@, MAX_SOCKETS as int);
}

/// The first `n` bytes of a buffer written over
pub open spec fn filled(out: Seq<u8>, with: Seq<u8>) -> Seq<u8> {
    with + out.skip(with.len() as int)
}

/// Whole datagrams, and the first of them taken away
proof fn lemma_datagrams_skip(rx: Seq<u8>)
    requires
        netstate::datagrams(rx),
        rx.len() > 0,
    ensures
        netstate::starts_whole(rx),
        netstate::datagrams(rx.skip(netstate::dgram_len(rx))),
{
}

impl Sock {
    /// Drop the oldest `n` bytes that have arrived.
    fn consume(&mut self, n: usize)
        requires
            old(self).wf(),
            n <= old(self)@.rx.len(),
            old(self)@.kind == KIND_DGRAM ==> netstate::datagrams(old(self)@.rx.skip(n as int)),
        ensures
            final(self).wf(),
            final(self)@ == (SockView { rx: old(self)@.rx.skip(n as int), ..old(self)@ }),
    {
        reveal(Sock::wf);
        reveal(SockView::wf);
        self.rx.skip(n);
        assert(self@ =~= SockView { rx: old(self)@.rx.skip(n as int), ..old(self)@ });
    }

    fn shut_reading(&mut self)
        requires
            old(self).wf(),
        ensures
            final(self).wf(),
            final(self)@ == (SockView { shut_rd: true, rx: Seq::empty(), ..old(self)@ }),
    {
        reveal(Sock::wf);
        reveal(SockView::wf);
        self.shut_rd = true;
        self.rx.clear();
        assert(self@ =~= SockView { shut_rd: true, rx: Seq::empty(), ..old(self)@ });
    }

    fn shut_writing(&mut self)
        requires
            old(self).wf(),
        ensures
            final(self).wf(),
            final(self)@ == (SockView { shut_wr: true, ..old(self)@ }),
    {
        reveal(Sock::wf);
        reveal(SockView::wf);
        self.shut_wr = true;
        assert(self@ =~= SockView { shut_wr: true, ..old(self)@ });
    }

    fn set_peer(&mut self, peer: Addr)
        requires
            old(self).wf(),
            peer.wf(),
        ensures
            final(self).wf(),
            final(self)@ == (SockView { peer, has_peer: true, ..old(self)@ }),
    {
        reveal(Sock::wf);
        reveal(SockView::wf);
        self.peer = peer;
        self.has_peer = true;
        assert(self@ =~= SockView { peer, has_peer: true, ..old(self)@ });
    }

    fn lose_one(&mut self)
        requires
            old(self).wf(),
        ensures
            final(self).wf(),
            final(self)@ == (SockView { dropped: old(self)@.dropped.wrapping_add(1), ..old(self)@ }),
    {
        reveal(Sock::wf);
        reveal(SockView::wf);
        self.dropped = self.dropped.wrapping_add(1);
        assert(self@ =~= SockView { dropped: old(self)@.dropped.wrapping_add(1), ..old(self)@ });
    }

    /// How many bytes have arrived
    fn waiting(&self) -> (r: usize)
        requires
            self.wf(),
        ensures
            r == self@.rx.len(),
            r <= RING,
    {
        reveal(Sock::wf);
        self.rx.len()
    }

    fn peek(&self, offset: usize, out: &mut [u8], n: usize)
        requires
            self.wf(),
            offset + n <= self@.rx.len(),
            n <= old(out)@.len(),
        ensures
            final(out)@ == filled(old(out)@, self@.rx.subrange(offset as int, offset + n)),
    {
        reveal(Sock::wf);
        self.rx.peek(offset, out, n);
    }

    fn copy(&self, offset: usize, n: usize) -> (r: Vec<u8>)
        requires
            self.wf(),
            offset + n <= self@.rx.len(),
        ensures
            r@ == self@.rx.subrange(offset as int, offset + n),
    {
        reveal(Sock::wf);
        self.rx.copy(offset, n)
    }
}

impl Net {
    fn consume(&mut self, i: u32, n: usize)
        requires
            old(self).wf(),
            i < MAX_SOCKETS,
            n <= old(self)@.socks[i as int].rx.len(),
            old(self)@.socks[i as int].kind == KIND_DGRAM ==> netstate::datagrams(
                old(self)@.socks[i as int].rx.skip(n as int),
            ),
        ensures
            final(self).wf(),
            final(self)@ == old(self)@.with_sock(
                i as int,
                SockView { rx: old(self)@.socks[i as int].rx.skip(n as int), ..old(self)@.socks[i as int] },
            ),
    {
        let ghost was = *self;
        proof {
            netstate::lemma_at(was, i as int);
        }
        let s = &mut self.socks[i as usize];
        s.consume(n);
        proof {
            netstate::lemma_changed(was, *self, i as int);
        }
    }

    fn shut_reading(&mut self, i: u32)
        requires
            old(self).wf(),
            i < MAX_SOCKETS,
        ensures
            final(self).wf(),
            final(self)@ == old(self)@.with_sock(
                i as int,
                SockView { shut_rd: true, rx: Seq::empty(), ..old(self)@.socks[i as int] },
            ),
    {
        let ghost was = *self;
        proof {
            netstate::lemma_at(was, i as int);
        }
        let s = &mut self.socks[i as usize];
        s.shut_reading();
        proof {
            netstate::lemma_changed(was, *self, i as int);
        }
    }

    fn shut_writing(&mut self, i: u32)
        requires
            old(self).wf(),
            i < MAX_SOCKETS,
        ensures
            final(self).wf(),
            final(self)@ == old(self)@.with_sock(
                i as int,
                SockView { shut_wr: true, ..old(self)@.socks[i as int] },
            ),
    {
        let ghost was = *self;
        proof {
            netstate::lemma_at(was, i as int);
        }
        let s = &mut self.socks[i as usize];
        s.shut_writing();
        proof {
            netstate::lemma_changed(was, *self, i as int);
        }
    }

    fn set_peer(&mut self, i: u32, peer: Addr)
        requires
            old(self).wf(),
            i < MAX_SOCKETS,
            peer.wf(),
        ensures
            final(self).wf(),
            final(self)@ == old(self)@.with_sock(
                i as int,
                SockView { peer, has_peer: true, ..old(self)@.socks[i as int] },
            ),
    {
        let ghost was = *self;
        proof {
            netstate::lemma_at(was, i as int);
        }
        let s = &mut self.socks[i as usize];
        s.set_peer(peer);
        proof {
            netstate::lemma_changed(was, *self, i as int);
        }
    }

    fn lose_one(&mut self, i: u32)
        requires
            old(self).wf(),
            i < MAX_SOCKETS,
        ensures
            final(self).wf(),
            final(self)@ == old(self)@.with_sock(
                i as int,
                SockView { dropped: old(self)@.socks[i as int].dropped.wrapping_add(1), ..old(self)@.socks[i as int] },
            ),
    {
        let ghost was = *self;
        proof {
            netstate::lemma_at(was, i as int);
        }
        let s = &mut self.socks[i as usize];
        s.lose_one();
        proof {
            netstate::lemma_changed(was, *self, i as int);
        }
    }
}

impl NetView {
    /// `send` on a stream: the bytes that the peer can take go to it.
    pub open spec fn sent(self, sock: int, b: Seq<u8>) -> (NetView, Result<usize, NetError>) {
        let s = self.socks[sock];
        let p = self.socks[s.far_end as int];
        if s.state != S_CONNECTED {
            (self, netstate::failed(Errno::NotConn))
        } else if s.shut_wr || p.state != S_CONNECTED || p.shut_rd {
            (self, netstate::failed(Errno::Pipe))
        } else if b.len() == 0 {
            (self, Ok(0))
        } else {
            let (net, taken) = self.delivered(s.host, s.far_end as int, PayloadView::Bytes(b));
            (
                net,
                if taken == 0 {
                    Err(NetError::WouldBlock)
                } else {
                    Ok(taken as usize)
                },
            )
        }
    }

    /// `recv` from a stream into a buffer of `room` bytes; 0 is end of
    /// stream.
    pub open spec fn received(self, sock: int, room: int, peek: bool) -> (
        NetView,
        Result<usize, NetError>,
    ) {
        let s = self.socks[sock];
        if s.state != S_CONNECTED {
            (self, netstate::failed(Errno::NotConn))
        } else if s.rx.len() == 0 {
            if s.fin || s.shut_rd || room == 0 {
                (self, Ok(0))
            } else {
                (self, Err(NetError::WouldBlock))
            }
        } else {
            let n = least(room, s.rx.len() as int);
            (
                if peek {
                    self
                } else {
                    self.with_sock(sock, SockView { rx: s.rx.skip(n), ..s })
                },
                Ok(n as usize),
            )
        }
    }

    /// An unbound inet datagram socket gets a port when it first sends.
    pub open spec fn bound_to_send(self, sock: int) -> (NetView, Result<(), NetError>) {
        if self.socks[sock].state == S_NEW && self.socks[sock].family == FAMILY_INET {
            self.bound(sock, Addr::inet_name(0, 0))
        } else {
            (self, Ok(()))
        }
    }

    /// Where a datagram of `sock` goes
    pub open spec fn destination(self, sock: int, dest: Option<(u32, Addr)>) -> Option<(u32, Addr)> {
        let s = self.socks[sock];
        match dest {
            Some(d) => Some(d),
            None => if s.has_peer {
                Some(
                    (
                        match self.host_at(s.host, s.peer.ip) {
                            Ok(h) => if s.family == FAMILY_INET {
                                h
                            } else {
                                s.host
                            },
                            Err(_) => s.host,
                        },
                        s.peer,
                    ),
                )
            } else {
                None
            },
        }
    }

    /// What the receiver sees as the source: the sender's name, with the
    /// address the destination would reply to
    pub open spec fn source(self, sock: int, dest: Addr) -> Addr {
        let s = self.socks[sock];
        if s.family == FAMILY_INET {
            Addr {
                family: FAMILY_INET,
                ip: if netstate::is_loopback(dest.ip) {
                    LOOPBACK
                } else {
                    self.hosts[s.host as int].addr
                },
                ..s.local
            }
        } else {
            s.local
        }
    }

    /// `send_dgram`: one datagram to where somebody is bound to receive it
    pub open spec fn sent_dgram(self, sock: int, dest: Option<(u32, Addr)>, data: Seq<u8>) -> (
        NetView,
        Result<usize, NetError>,
    ) {
        let (net, r) = self.bound_to_send(sock);
        let s = net.socks[sock];
        if data.len() > MAX_DGRAM {
            (self, netstate::failed(Errno::MsgSize))
        } else {
            match r {
                Err(e) => (net, Err(e)),
                Ok(_) => match net.destination(sock, dest) {
                    None => (net, netstate::failed(Errno::DestAddrReq)),
                    Some((dest_host, dest)) => {
                        let from = net.source(sock, dest);
                        match receiver_from(net.socks, 0, dest_host, dest, from) {
                            Some(target) => {
                                let (after, taken) = net.delivered(
                                    s.host,
                                    target,
                                    PayloadView::Datagram { from, data },
                                );
                                if taken == 0 && data.len() > 0 {
                                    if s.family == FAMILY_UNIX {
                                        (after, Err(NetError::WouldBlock))
                                    } else {
                                        (after.dgram_lost(sock), Ok(data.len() as usize))
                                    }
                                } else {
                                    (after.dgram_gone(), Ok(data.len() as usize))
                                }
                            },
                            None => if s.family == FAMILY_UNIX {
                                (net, netstate::failed(Errno::ConnRefused))
                            } else {
                                (net.dgram_lost(sock), Ok(data.len() as usize))
                            },
                        }
                    },
                },
            }
        }
    }

    /// One datagram more was sent.
    pub open spec fn dgram_gone(self) -> NetView {
        NetView { datagrams: self.datagrams.wrapping_add(1), ..self }
    }

    /// One datagram of `sock` more was sent, and lost.
    pub open spec fn dgram_lost(self, sock: int) -> NetView {
        let s = self.socks[sock];
        NetView {
            datagrams: self.datagrams.wrapping_add(1),
            dropped: self.dropped.wrapping_add(1),
            ..self.with_sock(sock, SockView { dropped: s.dropped.wrapping_add(1), ..s })
        }
    }

    /// `shutdown`: the peer learns that nothing more will come.
    pub open spec fn shut(self, sock: int, read: bool, write: bool) -> (
        NetView,
        Result<(), NetError>,
    ) {
        let s = self.socks[sock];
        if s.state != S_CONNECTED {
            (self, netstate::failed(Errno::NotConn))
        } else {
            let net = if read {
                self.with_sock(sock, SockView { shut_rd: true, rx: Seq::empty(), ..s })
            } else {
                self
            };
            if write && !s.shut_wr {
                (
                    net.with_sock(
                        sock,
                        SockView { shut_wr: true, ..net.socks[sock] },
                    ).delivered(s.host, s.far_end as int, PayloadView::Fin).0,
                    Ok(()),
                )
            } else {
                (net, Ok(()))
            }
        }
    }
}

/// The socket receives datagrams of `from` to `dest` on `dest_host`.
pub open spec fn receives(t: SockView, dest_host: u32, dest: Addr, from: Addr) -> bool {
    &&& t.kind == KIND_DGRAM
    &&& t.state == S_BOUND
    &&& t.host == dest_host
    &&& t.local.names_same(dest)
    &&& !t.has_peer || (t.peer.names_same(from) && t.peer.ip == from.ip)
}

/// The first that does, from number `i` on
pub open spec fn receiver_from(
    socks: Seq<SockView>,
    i: int,
    dest_host: u32,
    dest: Addr,
    from: Addr,
) -> Option<int>
    decreases socks.len() - i,
{
    if i < 0 || i >= socks.len() {
        None
    } else if receives(socks[i], dest_host, dest, from) {
        Some(i)
    } else {
        receiver_from(socks, i + 1, dest_host, dest, from)
    }
}

/// The source in the header of the first datagram
pub open spec fn source_of(rx: Seq<u8>, from: Addr) -> bool {
    &&& from.wf()
    &&& from.ip == bytes::at32(rx, 4)
    &&& from.port == bytes::at16(rx, 8)
    &&& from.family == rx[10]
    &&& from.path_len == rx[11]
    &&& from.path@ == bytes::padded(
        rx.subrange(DGRAM_HEADER as int, DGRAM_HEADER + rx[11]),
        104,
    )
}

/// The payload of the first datagram
pub open spec fn payload_of(rx: Seq<u8>) -> Seq<u8> {
    rx.subrange(DGRAM_HEADER + rx[11], netstate::dgram_len(rx))
}

impl Net {
    /// Send on a stream. Returns how many bytes were taken; `WouldBlock`
    /// when the peer's ring is full, which is the backpressure.
    pub fn send(&mut self, sock: u32, bytes: &[u8]) -> (r: Result<usize, NetError>)
        requires
            old(self).wf(),
            sock < MAX_SOCKETS,
        ensures
            final(self).wf(),
            (final(self)@, r) == old(self)@.sent(sock as int, bytes@),
    {
        proof {
            netstate::lemma_at(*self, sock as int);
        }
        let s = &self.socks[sock as usize];
        if s.state != S_CONNECTED {
            return Err(NetError::Errno(Errno::NotConn));
        }
        if s.shut_wr {
            return Err(NetError::Errno(Errno::Pipe));
        }
        let host: u32 = s.host;
        let peer: u32 = s.far_end;
        proof {
            netstate::lemma_at(*self, peer as int);
        }
        let p = &self.socks[peer as usize];
        if p.state != S_CONNECTED || p.shut_rd {
            return Err(NetError::Errno(Errno::Pipe));
        }
        if bytes.len() == 0 {
            return Ok(0);
        }
        let taken: usize = self.deliver(host, peer, &Payload::Bytes(bytes));
        if taken == 0 {
            Err(NetError::WouldBlock)
        } else {
            Ok(taken)
        }
    }

    /// Receive from a stream; 0 is end of stream.
    pub fn recv(&mut self, sock: u32, out: &mut [u8], peek: bool) -> (r: Result<usize, NetError>)
        requires
            old(self).wf(),
            sock < MAX_SOCKETS,
        ensures
            final(self).wf(),
            (final(self)@, r) == old(self)@.received(sock as int, old(out)@.len() as int, peek),
            final(out)@ == filled(
                old(out)@,
                match r {
                    Ok(n) => old(self)@.socks[sock as int].rx.take(n as int),
                    Err(_) => Seq::empty(),
                },
            ),
    {
        proof {
            netstate::lemma_at(*self, sock as int);
            assert(filled(old(out)@, Seq::empty()) =~= old(out)@);
        }
        let s = &self.socks[sock as usize];
        if s.state != S_CONNECTED {
            return Err(NetError::Errno(Errno::NotConn));
        }
        let have: usize = s.waiting();
        if have == 0 {
            return if s.fin || s.shut_rd || out.len() == 0 {
                assert(self@.socks[sock as int].rx.take(0) =~= Seq::<u8>::empty());
                Ok(0)
            } else {
                Err(NetError::WouldBlock)
            };
        }
        let n: usize = min(out.len(), have);
        s.peek(0, out, n);
        assert(self@.socks[sock as int].rx.subrange(0, n as int)
            =~= self@.socks[sock as int].rx.take(n as int));
        if !peek {
            self.consume(sock, n);
        }
        Ok(n)
    }

    /// Bytes `FIONREAD` reports: everything buffered on a stream, the
    /// first datagram's payload on a datagram socket.
    pub fn pending_bytes(&self, sock: u32) -> (r: usize)
        requires
            self.wf(),
            sock < MAX_SOCKETS,
        ensures
            r == ({
                let s = self@.socks[sock as int];
                if s.kind != KIND_DGRAM || s.rx.len() == 0 {
                    s.rx.len() as int
                } else {
                    payload_of(s.rx).len() as int
                }
            }),
    {
        proof {
            netstate::lemma_at(*self, sock as int);
            netstate::lemma_sock(self@.socks[sock as int]);
        }
        let s = &self.socks[sock as usize];
        let have: usize = s.waiting();
        if s.kind != KIND_DGRAM || have == 0 {
            return have;
        }
        let len = s.copy(0, 4);
        proof {
            lemma_datagrams_skip(s@.rx);
            lemma_same32(len@, 0, s@.rx, 0);
        }
        u32_at(len.as_slice(), 0).unwrap() as usize
    }

    /// Give a datagram socket a default destination. It then only
    /// receives from that address.
    pub fn connect_dgram(&mut self, sock: u32, dest: Addr) -> (r: Result<(), NetError>)
        requires
            old(self).wf(),
            sock < MAX_SOCKETS,
            dest.wf(),
        ensures
            final(self).wf(),
            r == old(self)@.bound_to_send(sock as int).1,
            final(self)@ == ({
                let net = old(self)@.bound_to_send(sock as int).0;
                match r {
                    Ok(_) => net.with_sock(
                        sock as int,
                        SockView { peer: dest, has_peer: true, ..net.socks[sock as int] },
                    ),
                    Err(_) => net,
                }
            }),
    {
        match self.bind_if_new(sock) {
            Ok(_) => {},
            Err(e) => {
                return Err(e);
            },
        }
        self.set_peer(sock, dest);
        Ok(())
    }

    /// An unbound inet datagram socket gets a port when it first sends, so
    /// replies can find it. UNIX-domain senders may stay nameless.
    fn bind_if_new(&mut self, sock: u32) -> (r: Result<(), NetError>)
        requires
            old(self).wf(),
            sock < MAX_SOCKETS,
        ensures
            final(self).wf(),
            (final(self)@, r) == old(self)@.bound_to_send(sock as int),
    {
        proof {
            netstate::lemma_at(*self, sock as int);
        }
        let s = &self.socks[sock as usize];
        if s.state == S_NEW && s.family == FAMILY_INET {
            return self.bind(sock, Addr::inet(0, 0));
        }
        Ok(())
    }

    fn find_receiver(&self, dest_host: u32, dest: &Addr, from: &Addr) -> (r: Option<u32>)
        requires
            self.wf(),
            dest.wf(),
            from.wf(),
        ensures
            match receiver_from(self@.socks, 0, dest_host, *dest, *from) {
                Some(t) => r == Some(t as u32) && 0 <= t < MAX_SOCKETS && receives(
                    self@.socks[t],
                    dest_host,
                    *dest,
                    *from,
                ),
                None => r is None,
            },
    {
        let mut i: usize = 0;
        proof {
            netstate::lemma_at(*self, 0);
        }
        while i < MAX_SOCKETS
            invariant
                self.wf(),
                self@.socks.len() == MAX_SOCKETS,
                dest.wf(),
                from.wf(),
                i <= MAX_SOCKETS,
                receiver_from(self@.socks, 0, dest_host, *dest, *from) == receiver_from(
                    self@.socks,
                    i as int,
                    dest_host,
                    *dest,
                    *from,
                ),
            decreases MAX_SOCKETS - i,
        {
            proof {
                netstate::lemma_at(*self, i as int);
            }
            let t = &self.socks[i];
            if t.kind == KIND_DGRAM && t.state == S_BOUND && t.host == dest_host
                && t.local.same_name(dest) && (!t.has_peer || (t.peer.same_name(from) && t.peer.ip
                == from.ip)) {
                return Some(i as u32);
            }
            i += 1;
        }
        None
    }

    fn dgram_destination(&self, sock: u32, dest: Option<(u32, Addr)>) -> (r: Option<(u32, Addr)>)
        requires
            self.wf(),
            sock < MAX_SOCKETS,
            dest matches Some(d) ==> d.1.wf(),
        ensures
            r == self@.destination(sock as int, dest),
            r matches Some(d) ==> d.1.wf(),
    {
        proof {
            netstate::lemma_at(*self, sock as int);
        }
        let s = &self.socks[sock as usize];
        match dest {
            Some(d) => Some(d),
            None => {
                if !s.has_peer {
                    return None;
                }
                let host: u32 = match self.host_for_ip(s.host, s.peer.ip) {
                    Ok(h) => if s.family == FAMILY_INET {
                        h
                    } else {
                        s.host
                    },
                    Err(_) => s.host,
                };
                Some((host, s.peer))
            },
        }
    }

    fn dgram_source(&self, sock: u32, dest: &Addr) -> (r: Addr)
        requires
            self.wf(),
            sock < MAX_SOCKETS,
        ensures
            r == self@.source(sock as int, *dest),
            r.wf(),
    {
        proof {
            netstate::lemma_at(*self, sock as int);
        }
        let s = &self.socks[sock as usize];
        let mut from: Addr = s.local;
        if s.family == FAMILY_INET {
            proof {
                netstate::lemma_host(*self, s.host as int);
            }
            from.family = FAMILY_INET;
            from.ip = if loopback(dest.ip) {
                LOOPBACK
            } else {
                self.hosts[s.host as usize].addr
            };
        }
        from
    }

    fn count_dgram(&mut self)
        requires
            old(self).wf(),
        ensures
            final(self).wf(),
            final(self)@ == old(self)@.dgram_gone(),
    {
        let ghost was = *self;
        self.datagrams = self.datagrams.wrapping_add(1);
        proof {
            netstate::lemma_kept(was, *self);
        }
    }

    fn lose_dgram(&mut self, sock: u32)
        requires
            old(self).wf(),
            sock < MAX_SOCKETS,
        ensures
            final(self).wf(),
            final(self)@ == old(self)@.dgram_lost(sock as int),
    {
        self.lose_one(sock);
        let ghost was = *self;
        self.dropped = self.dropped.wrapping_add(1);
        self.datagrams = self.datagrams.wrapping_add(1);
        proof {
            netstate::lemma_kept(was, *self);
        }
    }

    /// Send one datagram to `dest` on `dest_host` (or to the default
    /// destination). An inet datagram nobody is bound to receive, or that
    /// does not fit, is lost, as UDP allows; a UNIX-domain one reports it.
    pub fn send_dgram(&mut self, sock: u32, dest: Option<(u32, Addr)>, data: &[u8]) -> (r: Result<
        usize,
        NetError,
    >)
        requires
            old(self).wf(),
            sock < MAX_SOCKETS,
            dest matches Some(d) ==> d.1.wf(),
        ensures
            final(self).wf(),
            (final(self)@, r) == old(self)@.sent_dgram(sock as int, dest, data@),
    {
        if data.len() > MAX_DGRAM {
            return Err(NetError::Errno(Errno::MsgSize));
        }
        match self.bind_if_new(sock) {
            Ok(_) => {},
            Err(e) => {
                return Err(e);
            },
        }
        proof {
            netstate::lemma_at(*self, sock as int);
        }
        let host: u32 = self.socks[sock as usize].host;
        let family: u8 = self.socks[sock as usize].family;
        let (dest_host, to) = match self.dgram_destination(sock, dest) {
            Some(d) => d,
            None => {
                return Err(NetError::Errno(Errno::DestAddrReq));
            },
        };
        let from: Addr = self.dgram_source(sock, &to);
        match self.find_receiver(dest_host, &to, &from) {
            Some(target) => {
                let taken: usize = self.deliver(
                    host,
                    target,
                    &Payload::Datagram { from: &from, data },
                );
                if taken == 0 && data.len() > 0 {
                    if family == FAMILY_UNIX {
                        return Err(NetError::WouldBlock);
                    }
                    self.lose_dgram(sock);
                } else {
                    self.count_dgram();
                }
            },
            None => {
                if family == FAMILY_UNIX {
                    return Err(NetError::Errno(Errno::ConnRefused));
                }
                self.lose_dgram(sock);
            },
        }
        Ok(data.len())
    }

    /// Receive one datagram and its source. What does not fit in `out` is
    /// discarded with the datagram.
    pub fn recv_dgram(&mut self, sock: u32, out: &mut [u8], peek: bool) -> (r: Result<
        (usize, Addr),
        NetError,
    >)
        requires
            old(self).wf(),
            sock < MAX_SOCKETS,
            old(self)@.socks[sock as int].kind == KIND_DGRAM,
        ensures
            final(self).wf(),
            ({
                let s = old(self)@.socks[sock as int];
                if s.rx.len() == 0 {
                    &&& r == Err::<(usize, Addr), NetError>(NetError::WouldBlock)
                    &&& final(self)@ == old(self)@
                    &&& final(out)@ == old(out)@
                } else {
                    &&& r matches Ok((n, from))
                    &&& n == least(old(out)@.len() as int, payload_of(s.rx).len() as int)
                    &&& source_of(s.rx, from)
                    &&& final(out)@ == filled(old(out)@, payload_of(s.rx).take(n as int))
                    &&& final(self)@ == if peek {
                        old(self)@
                    } else {
                        old(self)@.with_sock(
                            sock as int,
                            SockView { rx: s.rx.skip(netstate::dgram_len(s.rx)), ..s },
                        )
                    }
                }
            }),
    {
        proof {
            netstate::lemma_at(*self, sock as int);
            netstate::lemma_sock(self@.socks[sock as int]);
        }
        let s = &self.socks[sock as usize];
        if s.waiting() == 0 {
            return Err(NetError::WouldBlock);
        }
        let ghost rx = s@.rx;
        proof {
            lemma_datagrams_skip(rx);
        }
        let header = s.copy(0, DGRAM_HEADER);
        proof {
            lemma_same32(header@, 0, rx, 0);
            lemma_same32(header@, 4, rx, 4);
        }
        let len: usize = u32_at(header.as_slice(), 0).unwrap() as usize;
        let mut from: Addr = Addr::none();
        from.ip = u32_at(header.as_slice(), 4).unwrap();
        from.port = u16_at(header.as_slice(), 8).unwrap();
        from.family = header[10];
        from.path_len = header[11];
        let path_len: usize = from.path_len as usize;
        let path = s.copy(DGRAM_HEADER, path_len);
        let mut i: usize = 0;
        while i < path_len
            invariant
                i <= path_len <= 104,
                path@.len() == path_len,
                from.path_len == path_len,
                from.ip == bytes::at32(rx, 4),
                from.port == bytes::at16(rx, 8),
                from.family == rx[10],
                from.path_len == rx[11],
                forall|k: int| 0 <= k < i ==> #[trigger] from.path@[k] == path@[k],
                forall|k: int| i <= k < 104 ==> #[trigger] from.path@[k] == 0,
            decreases path_len - i,
        {
            from.path[i] = path[i];
            i += 1;
        }
        assert(from.path@ =~= bytes::padded(path@, 104));
        let n: usize = min(out.len(), len);
        s.peek(DGRAM_HEADER + path_len, out, n);
        assert(payload_of(rx).take(n as int) =~= rx.subrange(
            DGRAM_HEADER + path_len,
            DGRAM_HEADER + path_len + n,
        ));
        if !peek {
            self.consume(sock, DGRAM_HEADER + path_len + len);
        }
        Ok((n, from))
    }

    pub fn shutdown(&mut self, sock: u32, read: bool, write: bool) -> (r: Result<(), NetError>)
        requires
            old(self).wf(),
            sock < MAX_SOCKETS,
        ensures
            final(self).wf(),
            (final(self)@, r) == old(self)@.shut(sock as int, read, write),
    {
        proof {
            netstate::lemma_at(*self, sock as int);
        }
        let s = &self.socks[sock as usize];
        if s.state != S_CONNECTED {
            return Err(NetError::Errno(Errno::NotConn));
        }
        let host: u32 = s.host;
        let peer: u32 = s.far_end;
        let shut_wr: bool = s.shut_wr;
        if read {
            self.shut_reading(sock);
        }
        if write && !shut_wr {
            self.shut_writing(sock);
            self.deliver(host, peer, &Payload::Fin);
        }
        Ok(())
    }
}

/// The same four bytes are the same number.
proof fn lemma_same32(a: Seq<u8>, i: int, b: Seq<u8>, j: int)
    requires
        0 <= i,
        i + 4 <= a.len(),
        0 <= j,
        j + 4 <= b.len(),
        forall|k: int| 0 <= k < 4 ==> #[trigger] a[i + k] == b[j + k],
    ensures
        bytes::at32(a, i) == bytes::at32(b, j),
{
    assert(a[i + 0] == b[j + 0]);
    assert(a[i + 1] == b[j + 1]);
    assert(a[i + 2] == b[j + 2]);
    assert(a[i + 3] == b[j + 3]);
}

} // verus!
