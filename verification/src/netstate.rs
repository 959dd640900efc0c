//! The virtual network, as state of the scheduler. Sockets between guests
//! never touch the kernel's network stack: a connection is two `Sock`
//! records pointing at each other, each with a receive ring. Because only
//! the baton holder runs, every operation here is atomic with respect to
//! every guest, and nothing is asynchronous.
//!
//! Every byte between guests passes through `Net::deliver`, which is the
//! seam for a network simulator.
//!
//! A socket's descriptor in a guest is a real `AF_UNIX` socket used only as
//! a placeholder. Its `st_ino` identifies the virtual socket, so `dup`,
//! `fork`, `execve` and spawn file actions carry the identity along
//! without any bookkeeping here; what is tracked is how many descriptors
//! each process holds, to know when the last one goes.

use vstd::prelude::*;
use crate::bytes;
use crate::errno::Errno;
use crate::ring::Ring;

pub use crate::ring::RING;

pub mod calls;
pub mod holdings;
pub mod laws;
pub mod naming;
pub mod promises;
pub mod readiness;
pub mod refs;
pub mod traffic;

verus! {

pub const MAX_HOSTS: usize = 32;

pub const MAX_SOCKETS: usize = 256;

pub const MAX_FDREFS: usize = 1024;

pub const BACKLOG: usize = 32;

pub const NAME_MAX: usize = 64;

pub const UNIX_PATH_MAX: usize = 104;

/// Virtual subnet: host `i` is `10.0.0.(i + 1)`
pub const SUBNET: u32 = 0x0A00_0000;

pub const SUBNET_MASK: u32 = 0xFFFF_FF00;

pub const LOOPBACK: u32 = 0x7F00_0001;

pub const FIRST_EPHEMERAL: u16 = 49152;

pub const NO_SOCK: u32 = 0xFFFF_FFFF;

pub const FAMILY_NONE: u8 = 0;

pub const FAMILY_INET: u8 = 1;

pub const FAMILY_UNIX: u8 = 2;

pub const KIND_STREAM: u8 = 1;

pub const KIND_DGRAM: u8 = 2;

pub const S_FREE: u8 = 0;

pub const S_NEW: u8 = 1;

pub const S_BOUND: u8 = 2;

pub const S_LISTENING: u8 = 3;

pub const S_CONNECTED: u8 = 4;

/// Every descriptor is gone but the peer still refers to the record
pub const S_CLOSED: u8 = 5;

/// Largest datagram payload; with its header it must fit an empty ring
pub const MAX_DGRAM: usize = 61440;

/// In the ring a datagram is `len: u32, ip: u32, port: u16, family: u8,
/// path_len: u8`, the source path, then the payload.
pub const DGRAM_HEADER: usize = 12;

/// A record in a socket's flight ring: due time, kind, payload length
pub const FLIGHT_HEADER: usize = 13;

pub const K_BYTES: u8 = 1;

pub const K_DGRAM: u8 = 2;

pub const K_FIN: u8 = 3;

pub struct Host {
    pub name: Vec<u8>,
    /// Host byte order
    pub addr: u32,
    next_port: u16,
}

pub struct HostView {
    pub name: Seq<u8>,
    pub addr: u32,
    pub next_port: u16,
}

impl View for Host {
    type V = HostView;

    closed spec fn view(&self) -> HostView {
        HostView { name: self.name@, addr: self.addr, next_port: self.next_port }
    }
}

impl Host {
    pub fn name(&self) -> (r: &[u8])
        ensures
            r@ == self@.name,
    {
        self.name.as_slice()
    }
}

#[derive(Clone, Copy, Debug, PartialEq, Eq)]
pub struct Addr {
    pub family: u8,
    pub path_len: u8,
    pub port: u16,
    /// Host byte order
    pub ip: u32,
    pub path: [u8; 104],
}

fn blank_path() -> (r: [u8; 104])
    ensures
        r == Addr::no_path(),
        r@ == bytes::zeros(104),
{
    let r: [u8; 104] = [0; 104];
    assert(r@ =~= bytes::zeros(104));
    assert(r =~= Addr::no_path());
    r
}

impl Addr {
    pub open spec fn wf(self) -> bool {
        self.path_len <= UNIX_PATH_MAX
    }

    /// The bytes of the path
    pub open spec fn path_bytes(self) -> Seq<u8> {
        self.path@.take(self.path_len as int)
    }

    /// The path of a name that has none: zeros
    pub open spec fn no_path() -> [u8; 104] {
        choose|a: [u8; 104]| a@ == bytes::zeros(104)
    }

    /// No name
    pub open spec fn no_name() -> Addr {
        Addr { family: FAMILY_NONE, path_len: 0, port: 0, ip: 0, path: Addr::no_path() }
    }

    /// No name
    pub fn none() -> (r: Addr)
        ensures
            r.wf(),
            r == Addr::no_name(),
            r.path@ == bytes::zeros(104),
    {
        Addr { family: FAMILY_NONE, path_len: 0, port: 0, ip: 0, path: blank_path() }
    }

    /// An Internet endpoint
    pub open spec fn inet_name(ip: u32, port: u16) -> Addr {
        Addr { family: FAMILY_INET, path_len: 0, port, ip, path: Addr::no_path() }
    }

    pub fn inet(ip: u32, port: u16) -> (r: Addr)
        ensures
            r.wf(),
            r == Addr::inet_name(ip, port),
    {
        Addr { family: FAMILY_INET, path_len: 0, port, ip, path: blank_path() }
    }

    /// A path name, cut off where it is too long
    pub fn unix(path: &[u8]) -> (r: Addr)
        ensures
            r.wf(),
            r.family == FAMILY_UNIX,
            r.ip == 0,
            r.port == 0,
            r.path_len == (if path@.len() < 104 {
                path@.len() as int
            } else {
                104
            }),
            r.path@ == bytes::padded(path@.take(r.path_len as int), 104),
            r.path_bytes() == path@.take(r.path_len as int),
    {
        let n: usize = if path.len() < UNIX_PATH_MAX {
            path.len()
        } else {
            UNIX_PATH_MAX
        };
        let mut a = Addr { family: FAMILY_UNIX, path_len: n as u8, port: 0, ip: 0, path: [0; 104] };
        let mut i: usize = 0;
        while i < n
            invariant
                i <= n <= path@.len(),
                n <= 104,
                a.family == FAMILY_UNIX,
                a.path_len == n,
                a.ip == 0,
                a.port == 0,
                forall|k: int| 0 <= k < i ==> #[trigger] a.path@[k] == path@[k],
                forall|k: int| i <= k < 104 ==> #[trigger] a.path@[k] == 0,
            decreases n - i,
        {
            a.path[i] = path[i];
            i += 1;
        }
        assert(a.path@ =~= bytes::padded(path@.take(n as int), 104));
        assert(a.path_bytes() =~= path@.take(n as int));
        a
    }

    /// The path's bytes
    pub fn path(&self) -> (r: &[u8])
        requires
            self.wf(),
        ensures
            r@ == self.path_bytes(),
    {
        vstd::slice::slice_subrange(self.path.as_slice(), 0, self.path_len as usize)
    }

    /// Same endpoint name within one host's tables
    pub open spec fn names_same(self, other: Addr) -> bool {
        &&& self.family == other.family
        &&& if self.family == FAMILY_INET {
            self.port == other.port
        } else if self.family == FAMILY_UNIX {
            self.path_bytes() == other.path_bytes()
        } else {
            false
        }
    }

    fn same_name(&self, other: &Addr) -> (r: bool)
        requires
            self.wf(),
            other.wf(),
        ensures
            r == self.names_same(*other),
    {
        if self.family != other.family {
            return false;
        }
        if self.family == FAMILY_INET {
            return self.port == other.port;
        }
        if self.family != FAMILY_UNIX {
            return false;
        }
        if self.path_len != other.path_len {
            assert(self.path_bytes().len() != other.path_bytes().len());
            return false;
        }
        let n: usize = self.path_len as usize;
        let mut i: usize = 0;
        while i < n
            invariant
                i <= n <= 104,
                n == self.path_len,
                n == other.path_len,
                self.family == other.family,
                self.family == FAMILY_UNIX,
                forall|k: int| 0 <= k < i ==> self.path@[k] == other.path@[k],
            decreases n - i,
        {
            if self.path[i] != other.path[i] {
                assert(self.path_bytes()[i as int] != other.path_bytes()[i as int]);
                return false;
            }
            i += 1;
        }
        assert(self.path_bytes() =~= other.path_bytes());
        true
    }
}

/// A datagram as it sits in a ring
pub open spec fn datagram(from: Addr, data: Seq<u8>) -> Seq<u8> {
    bytes::le32(data.len() as u32) + bytes::le32(from.ip) + bytes::le16(from.port)
        + seq![from.family, from.path_len] + from.path_bytes() + data
}

/// How many bytes the first datagram in a ring takes
pub open spec fn dgram_len(rx: Seq<u8>) -> int {
    DGRAM_HEADER + rx[11] + bytes::at32(rx, 0)
}

/// There is a first datagram, and all of it is there
pub open spec fn starts_whole(rx: Seq<u8>) -> bool {
    rx.len() >= DGRAM_HEADER && rx[11] <= UNIX_PATH_MAX && dgram_len(rx) <= rx.len()
}

/// Nothing but whole datagrams
pub open spec fn datagrams(rx: Seq<u8>) -> bool
    decreases rx.len(),
{
    rx.len() == 0 || (starts_whole(rx) && datagrams(rx.skip(dgram_len(rx))))
}

/// A payload on its way to a socket, as it will sit in the receive ring
pub struct Flight {
    pub due: u64,
    pub kind: u8,
    pub body: Seq<u8>,
}

impl Flight {
    /// Its record in the flight ring
    pub open spec fn record(self) -> Seq<u8> {
        bytes::le64(self.due) + seq![self.kind] + bytes::le32(self.body.len() as u32) + self.body
    }

    pub open spec fn wf(self) -> bool {
        &&& self.body.len() <= RING
        &&& self.kind == K_BYTES || self.kind == K_DGRAM || self.kind == K_FIN
        &&& self.kind == K_DGRAM ==> starts_whole(self.body) && dgram_len(self.body)
            == self.body.len()
        &&& self.kind == K_FIN ==> self.body.len() == 0
    }
}

/// The records of all flights, the oldest first
pub open spec fn records(q: Seq<Flight>) -> Seq<u8>
    decreases q.len(),
{
    if q.len() == 0 {
        Seq::empty()
    } else {
        q[0].record() + records(q.skip(1))
    }
}

/// The stream bytes among flights
pub open spec fn stream_bytes(q: Seq<Flight>) -> int
    decreases q.len(),
{
    if q.len() == 0 {
        0
    } else {
        (if q[0].kind == K_BYTES {
            q[0].body.len() as int
        } else {
            0
        }) + stream_bytes(q.skip(1))
    }
}

pub open spec fn has_fin(q: Seq<Flight>) -> bool {
    exists|i: int| 0 <= i < q.len() && (#[trigger] q[i]).kind == K_FIN
}

pub struct Sock {
    pub state: u8,
    pub kind: u8,
    pub family: u8,
    pub nonblocking: bool,
    /// The peer sent FIN (closed or shut down its sending side)
    pub fin: bool,
    /// We shut down our sending side
    pub shut_wr: bool,
    pub shut_rd: bool,
    /// Created by a `connect` and not yet returned by `accept`
    pub pending: bool,
    /// `SO_NOSIGPIPE`: a write to a closed peer is `EPIPE` without the signal
    pub nosigpipe: bool,
    /// A datagram socket with a default destination, which also filters
    /// what it receives
    pub has_peer: bool,
    /// `SO_RCVTIMEO` and `SO_SNDTIMEO` in nanoseconds of virtual time (0:
    /// wait forever)
    pub rcv_timeout_ns: u64,
    pub snd_timeout_ns: u64,
    pub host: u32,
    /// Open descriptors, over all processes
    pub refs: u32,
    pub far_end: u32,
    pub local: Addr,
    pub peer: Addr,
    backlog: Vec<u32>,
    backlog_max: u32,
    pub bytes_in: u64,
    /// Datagrams lost because the ring was full or nobody was bound
    pub dropped: u64,
    /// Stream bytes in flight to this socket; they hold part of its window
    fl_stream: usize,
    rx: Ring,
    /// Payloads on their way here, oldest first
    flight: Ring,
    queue: Ghost<Seq<Flight>>,
}

#[verifier::ext_equal]
pub struct SockView {
    pub state: u8,
    pub kind: u8,
    pub family: u8,
    pub nonblocking: bool,
    pub fin: bool,
    pub shut_wr: bool,
    pub shut_rd: bool,
    pub pending: bool,
    pub nosigpipe: bool,
    pub has_peer: bool,
    pub rcv_timeout_ns: u64,
    pub snd_timeout_ns: u64,
    pub host: u32,
    pub refs: u32,
    pub far_end: u32,
    pub local: Addr,
    pub peer: Addr,
    /// Connections not yet accepted, the oldest first
    pub backlog: Seq<u32>,
    pub backlog_max: u32,
    pub bytes_in: u64,
    pub dropped: u64,
    /// What has arrived and was not received, the oldest byte first
    pub rx: Seq<u8>,
    /// What is on its way, the oldest first
    pub flights: Seq<Flight>,
}

impl View for Sock {
    type V = SockView;

    closed spec fn view(&self) -> SockView {
        SockView {
            state: self.state,
            kind: self.kind,
            family: self.family,
            nonblocking: self.nonblocking,
            fin: self.fin,
            shut_wr: self.shut_wr,
            shut_rd: self.shut_rd,
            pending: self.pending,
            nosigpipe: self.nosigpipe,
            has_peer: self.has_peer,
            rcv_timeout_ns: self.rcv_timeout_ns,
            snd_timeout_ns: self.snd_timeout_ns,
            host: self.host,
            refs: self.refs,
            far_end: self.far_end,
            local: self.local,
            peer: self.peer,
            backlog: self.backlog@,
            backlog_max: self.backlog_max,
            bytes_in: self.bytes_in,
            dropped: self.dropped,
            rx: self.rx@,
            flights: self.queue@,
        }
    }
}

impl SockView {
    /// It is in use, or has an address: then its host is one of the hosts.
    pub open spec fn at_host(self) -> bool {
        self.state != S_FREE && self.state != S_CLOSED || self.family == FAMILY_INET
    }

    /// The bytes the flights take in their ring
    pub open spec fn flight_len(self) -> int {
        records(self.flights).len() as int
    }

    #[verifier::opaque]
    pub open spec fn wf(self) -> bool {
        &&& self.local.wf()
        &&& self.peer.wf()
        &&& forall|i: int|
            0 <= i < self.backlog.len() ==> (#[trigger] self.backlog[i]) < MAX_SOCKETS
        &&& self.backlog.len() <= BACKLOG
        &&& self.backlog_max <= BACKLOG
        &&& self.state == S_CONNECTED ==> self.far_end < MAX_SOCKETS && self.kind != KIND_DGRAM
        &&& self.kind == KIND_DGRAM ==> datagrams(self.rx)
        &&& forall|i: int|
            0 <= i < self.flights.len() ==> (#[trigger] self.flights[i]).wf() && (
            self.flights[i].kind == K_BYTES ==> self.kind != KIND_DGRAM) && (self.flights[i].kind
                == K_DGRAM ==> self.kind == KIND_DGRAM)
        // What is launched always fits on arrival, and room for a FIN is kept
        &&& self.rx.len() + stream_bytes(self.flights) <= RING
        &&& self.flight_len() <= RING
        &&& self.flight_len() + FLIGHT_HEADER > RING ==> has_fin(self.flights)
    }
}

impl Sock {
    #[verifier::opaque]
    pub closed spec fn wf(self) -> bool {
        &&& self@.wf()
        &&& self.rx.wf()
        &&& self.flight.wf()
        &&& self.flight@ == records(self.queue@)
        &&& self.fl_stream == stream_bytes(self.queue@)
    }
}

#[derive(Clone, Copy, PartialEq, Eq, Structural)]
pub struct FdRef {
    pub pid: u32,
    pub sock: u32,
    pub count: u32,
}

/// Why an operation cannot complete now
#[derive(Debug, Clone, Copy, PartialEq, Eq, Structural)]
pub enum NetError {
    /// Not ready; park and retry, or `EAGAIN` for a non-blocking socket
    WouldBlock,
    Errno(Errno),
}

pub struct Net {
    pub hosts: Vec<Host>,
    /// `st_ino` of each socket's placeholder descriptor (0: none yet).
    /// Kept apart from the records so that looking a descriptor up, which
    /// every `read` and `write` does, does not walk 64 KB strides.
    idents: Vec<u64>,
    pub socks: Vec<Sock>,
    fdrefs: Vec<FdRef>,
    /// The run's virtual clock, mirrored here whenever it moves
    pub now: u64,
    /// Delay between different hosts; traffic within a host is immediate
    pub latency_ns: u64,
    in_flight: u64,
    next_due: u64,
    /// Totals for the report
    pub connections: u64,
    pub datagrams: u64,
    pub dropped: u64,
    pub bytes: u64,
    /// Connections that left the virtual network for the kernel's
    pub passthrough: u64,
}

/// Totals for the report
#[derive(Debug, Clone, Copy, PartialEq, Eq, Structural)]
pub struct NetCounts {
    pub connections: u64,
    pub datagrams: u64,
    /// Datagrams nobody was bound to receive or that found a full ring
    pub dropped: u64,
    pub bytes: u64,
    /// Connections that left the virtual network for the kernel's
    pub passthrough: u64,
}

#[verifier::ext_equal]
pub struct NetView {
    pub hosts: Seq<HostView>,
    pub idents: Seq<u64>,
    pub socks: Seq<SockView>,
    pub fdrefs: Seq<FdRef>,
    pub now: u64,
    pub latency_ns: u64,
    /// How many payloads are on their way
    pub in_flight: u64,
    /// When the next of them is due
    pub due: u64,
    pub connections: u64,
    pub datagrams: u64,
    pub dropped: u64,
    pub bytes: u64,
    pub passthrough: u64,
}

impl View for Net {
    type V = NetView;

    closed spec fn view(&self) -> NetView {
        NetView {
            hosts: self.hosts@.map_values(|h: Host| h@),
            idents: self.idents@,
            socks: self.socks@.map_values(|s: Sock| s@),
            fdrefs: self.fdrefs@,
            now: self.now,
            latency_ns: self.latency_ns,
            in_flight: self.in_flight,
            due: self.next_due,
            connections: self.connections,
            datagrams: self.datagrams,
            dropped: self.dropped,
            bytes: self.bytes,
            passthrough: self.passthrough,
        }
    }
}

/// How many payloads are in flight to the first `n` sockets
pub open spec fn flying(socks: Seq<SockView>, n: int) -> int
    decreases n,
{
    if n <= 0 {
        0
    } else {
        flying(socks, n - 1) + socks[n - 1].flights.len()
    }
}

impl NetView {
    pub open spec fn wf(self) -> bool {
        &&& self.hosts.len() <= MAX_HOSTS
        &&& forall|i: int|
            0 <= i < self.hosts.len() ==> (#[trigger] self.hosts[i]).next_port >= FIRST_EPHEMERAL
                && self.hosts[i].addr == SUBNET + i + 1 && self.hosts[i].name.len() <= NAME_MAX
        &&& self.idents.len() == MAX_SOCKETS
        &&& self.socks.len() == MAX_SOCKETS
        &&& self.fdrefs.len() == MAX_FDREFS
        &&& refs::one_each(self.fdrefs)
        &&& forall|i: int|
            0 <= i < self.socks.len() ==> (#[trigger] self.socks[i]).wf() && (
            self.socks[i].at_host() ==> self.socks[i].host < self.hosts.len())
        &&& flying(self.socks, MAX_SOCKETS as int) <= self.in_flight
    }
}

impl Net {
    #[verifier::opaque]
    pub closed spec fn wf(self) -> bool {
        &&& self@.wf()
        &&& forall|i: int| 0 <= i < self.socks@.len() ==> (#[trigger] self.socks@[i]).wf()
    }

    /// What well-formedness says of what is visible
    pub proof fn lemma_wf(self)
        requires
            self.wf(),
        ensures
            self@.wf(),
    {
        reveal(Net::wf);
    }
}

/// One socket's flights more or fewer
pub proof fn lemma_flying_update(socks: Seq<SockView>, i: int, s: SockView, n: int)
    requires
        0 <= i < socks.len(),
        0 <= n <= socks.len(),
    ensures
        flying(socks.update(i, s), n) == flying(socks, n) + (if i < n {
            s.flights.len() - socks[i].flights.len()
        } else {
            0
        }),
    decreases n,
{
    if n > 0 {
        lemma_flying_update(socks, i, s, n - 1);
    }
}

pub proof fn lemma_flying_some(socks: Seq<SockView>, i: int, n: int)
    requires
        0 <= i < n <= socks.len(),
    ensures
        socks[i].flights.len() <= flying(socks, n),
    decreases n,
{
    lemma_flying_positive(socks, n - 1);
    if i < n - 1 {
        lemma_flying_some(socks, i, n - 1);
    }
}

proof fn lemma_flying_positive(socks: Seq<SockView>, n: int)
    ensures
        flying(socks, n) >= 0,
    decreases n,
{
    if n > 0 {
        lemma_flying_positive(socks, n - 1);
    }
}

proof fn lemma_flying_none(socks: Seq<SockView>, n: int)
    requires
        0 <= n <= socks.len(),
        forall|i: int| 0 <= i < socks.len() ==> (#[trigger] socks[i]).flights.len() == 0,
    ensures
        flying(socks, n) == 0,
    decreases n,
{
    if n > 0 {
        lemma_flying_none(socks, n - 1);
    }
}

impl SockView {
    /// A record in no use
    pub open spec fn free() -> SockView {
        SockView { state: S_FREE, kind: 0, far_end: 0, ..SockView::blank(0, 0, 0) }
    }

    /// A socket as it is made
    pub open spec fn blank(host: u32, family: u8, kind: u8) -> SockView {
        SockView {
            state: S_NEW,
            kind,
            family,
            nonblocking: false,
            fin: false,
            shut_wr: false,
            shut_rd: false,
            pending: false,
            nosigpipe: false,
            has_peer: false,
            rcv_timeout_ns: 0,
            snd_timeout_ns: 0,
            host,
            refs: 0,
            far_end: NO_SOCK,
            local: Addr::no_name(),
            peer: Addr::no_name(),
            backlog: Seq::empty(),
            backlog_max: 0,
            bytes_in: 0,
            dropped: 0,
            rx: Seq::empty(),
            flights: Seq::empty(),
        }
    }
}

impl NetView {
    /// Nothing yet
    pub open spec fn empty() -> NetView {
        NetView {
            hosts: Seq::empty(),
            idents: Seq::new(MAX_SOCKETS as nat, |i: int| 0u64),
            socks: Seq::new(MAX_SOCKETS as nat, |i: int| SockView::free()),
            fdrefs: Seq::new(MAX_FDREFS as nat, |i: int| FdRef { pid: 0, sock: 0, count: 0 }),
            now: 0,
            latency_ns: 0,
            in_flight: 0,
            due: 0,
            connections: 0,
            datagrams: 0,
            dropped: 0,
            bytes: 0,
            passthrough: 0,
        }
    }

    /// With another record for socket `i`
    pub open spec fn with_sock(self, i: int, s: SockView) -> NetView {
        NetView { socks: self.socks.update(i, s), ..self }
    }

    /// What the network tells of itself
    pub open spec fn counts(self) -> NetCounts {
        NetCounts {
            connections: self.connections,
            datagrams: self.datagrams,
            dropped: self.dropped,
            bytes: self.bytes,
            passthrough: self.passthrough,
        }
    }

    /// With the next host
    pub open spec fn with_host(self, name: Seq<u8>) -> NetView {
        NetView {
            hosts: self.hosts.push(
                HostView {
                    name: if name.len() <= NAME_MAX {
                        name
                    } else {
                        name.take(NAME_MAX as int)
                    },
                    addr: (SUBNET + self.hosts.len() + 1) as u32,
                    next_port: FIRST_EPHEMERAL,
                },
            ),
            ..self
        }
    }

    /// The host an address names, seen from `from`
    pub open spec fn host_at(self, from: u32, ip: u32) -> Result<u32, bool> {
        if is_loopback(ip) {
            Ok(from)
        } else if SUBNET < ip <= SUBNET + self.hosts.len() {
            Ok((ip - SUBNET - 1) as u32)
        } else {
            Err(ip / 256 == SUBNET / 256)
        }
    }

    /// With a new socket in record `i`
    pub open spec fn with_new(self, i: int, host: u32, family: u8, kind: u8) -> NetView {
        NetView {
            idents: self.idents.update(i, 0),
            ..self.with_sock(i, SockView::blank(host, family, kind))
        }
    }
}

/// The first free record, from number `i` on
pub open spec fn free_from(socks: Seq<SockView>, i: int) -> Option<int>
    decreases socks.len() - i,
{
    if i < 0 || i >= socks.len() {
        None
    } else if socks[i].state == S_FREE {
        Some(i)
    } else {
        free_from(socks, i + 1)
    }
}

/// The first socket of that identity, from number `i` on
pub open spec fn identified(idents: Seq<u64>, ident: u64, i: int) -> Option<u32>
    decreases idents.len() - i,
{
    if i < 0 || i >= idents.len() {
        None
    } else if idents[i] == ident {
        Some(i as u32)
    } else {
        identified(idents, ident, i + 1)
    }
}

/// The first host of that name, from number `i` on
pub open spec fn host_named(hosts: Seq<HostView>, name: Seq<u8>, i: int) -> Option<u32>
    decreases hosts.len() - i,
{
    if i < 0 || i >= hosts.len() {
        None
    } else if hosts[i].name == name {
        Some(i as u32)
    } else {
        host_named(hosts, name, i + 1)
    }
}

/// A failed operation's result
pub open spec fn failed<T>(e: Errno) -> Result<T, NetError> {
    Err(NetError::Errno(e))
}

/// 127.x.y.z
pub open spec fn is_loopback(ip: u32) -> bool {
    ip / 0x100_0000 == 127
}

fn loopback(ip: u32) -> (r: bool)
    ensures
        r == is_loopback(ip),
{
    ip / 0x100_0000 == 127
}

impl Sock {
    fn fresh() -> (r: Sock)
        ensures
            r.wf(),
            r@ == SockView::free(),
    {
        reveal(Sock::wf);
        reveal(SockView::wf);
        let r = Sock {
            state: S_FREE,
            kind: 0,
            family: 0,
            nonblocking: false,
            fin: false,
            shut_wr: false,
            shut_rd: false,
            pending: false,
            nosigpipe: false,
            has_peer: false,
            rcv_timeout_ns: 0,
            snd_timeout_ns: 0,
            host: 0,
            refs: 0,
            far_end: 0,
            local: Addr::none(),
            peer: Addr::none(),
            backlog: Vec::new(),
            backlog_max: 0,
            bytes_in: 0,
            dropped: 0,
            fl_stream: 0,
            rx: Ring::new(),
            flight: Ring::new(),
            queue: Ghost(Seq::empty()),
        };
        assert(r@ =~= SockView::free());
        r
    }

    /// Make it a new socket.
    fn renew(&mut self, host: u32, family: u8, kind: u8)
        requires
            old(self).wf(),
        ensures
            final(self).wf(),
            final(self)@ == SockView::blank(host, family, kind),
    {
        reveal(Sock::wf);
        reveal(SockView::wf);
        self.state = S_NEW;
        self.kind = kind;
        self.family = family;
        self.nonblocking = false;
        self.fin = false;
        self.shut_wr = false;
        self.shut_rd = false;
        self.pending = false;
        self.nosigpipe = false;
        self.has_peer = false;
        self.rcv_timeout_ns = 0;
        self.snd_timeout_ns = 0;
        self.dropped = 0;
        self.host = host;
        self.refs = 0;
        self.far_end = NO_SOCK;
        self.local = Addr::none();
        self.peer = Addr::none();
        self.backlog.clear();
        self.backlog_max = 0;
        self.rx.clear();
        self.bytes_in = 0;
        self.flight.clear();
        self.fl_stream = 0;
        self.queue = Ghost(Seq::empty());
        assert(self@ =~= SockView::blank(host, family, kind));
    }

    /// Give it a name.
    fn bind_to(&mut self, local: Addr)
        requires
            old(self).wf(),
            local.wf(),
        ensures
            final(self).wf(),
            final(self)@ == (SockView { local, state: S_BOUND, ..old(self)@ }),
    {
        reveal(Sock::wf);
        reveal(SockView::wf);
        self.local = local;
        self.state = S_BOUND;
        assert(self@ =~= SockView { local, state: S_BOUND, ..old(self)@ });
    }

    fn name_to(&mut self, local: Addr)
        requires
            old(self).wf(),
            local.wf(),
        ensures
            final(self).wf(),
            final(self)@ == (SockView { local, ..old(self)@ }),
    {
        reveal(Sock::wf);
        reveal(SockView::wf);
        self.local = local;
        assert(self@ =~= SockView { local, ..old(self)@ });
    }

    fn listen_for(&mut self, backlog_max: u32)
        requires
            old(self).wf(),
            backlog_max <= BACKLOG,
        ensures
            final(self).wf(),
            final(self)@ == (SockView { state: S_LISTENING, backlog_max, ..old(self)@ }),
    {
        reveal(Sock::wf);
        reveal(SockView::wf);
        self.state = S_LISTENING;
        self.backlog_max = backlog_max;
        assert(self@ =~= SockView { state: S_LISTENING, backlog_max, ..old(self)@ });
    }

    fn join(&mut self, peer: Addr, far_end: u32)
        requires
            old(self).wf(),
            old(self)@.kind != KIND_DGRAM,
            peer.wf(),
            far_end < MAX_SOCKETS,
        ensures
            final(self).wf(),
            final(self)@ == (SockView { state: S_CONNECTED, peer, far_end, ..old(self)@ }),
    {
        reveal(Sock::wf);
        reveal(SockView::wf);
        self.state = S_CONNECTED;
        self.peer = peer;
        self.far_end = far_end;
        assert(self@ =~= SockView { state: S_CONNECTED, peer, far_end, ..old(self)@ });
    }

    /// The far end of a connection that nobody accepted yet.
    fn open_far(&mut self, local: Addr, peer: Addr, far_end: u32)
        requires
            old(self).wf(),
            old(self)@.kind != KIND_DGRAM,
            local.wf(),
            peer.wf(),
            far_end < MAX_SOCKETS,
        ensures
            final(self).wf(),
            final(self)@ == (SockView {
                state: S_CONNECTED,
                pending: true,
                local,
                peer,
                far_end,
                ..old(self)@
            }),
    {
        self.name_to(local);
        self.join(peer, far_end);
        self.set_pending(true);
    }

    fn set_pending(&mut self, pending: bool)
        requires
            old(self).wf(),
        ensures
            final(self).wf(),
            final(self)@ == (SockView { pending, ..old(self)@ }),
    {
        reveal(Sock::wf);
        reveal(SockView::wf);
        self.pending = pending;
        assert(self@ =~= SockView { pending, ..old(self)@ });
    }

    fn enqueue(&mut self, far: u32)
        requires
            old(self).wf(),
            old(self)@.backlog.len() < BACKLOG,
            far < MAX_SOCKETS,
        ensures
            final(self).wf(),
            final(self)@ == (SockView { backlog: old(self)@.backlog.push(far), ..old(self)@ }),
    {
        reveal(Sock::wf);
        reveal(SockView::wf);
        self.backlog.push(far);
        assert(self@ =~= SockView { backlog: old(self)@.backlog.push(far), ..old(self)@ });
    }

    fn dequeue(&mut self) -> (far: u32)
        requires
            old(self).wf(),
            old(self)@.backlog.len() > 0,
        ensures
            final(self).wf(),
            far == old(self)@.backlog[0],
            far < MAX_SOCKETS,
            final(self)@ == (SockView { backlog: old(self)@.backlog.skip(1), ..old(self)@ }),
    {
        reveal(Sock::wf);
        reveal(SockView::wf);
        let far: u32 = self.backlog.remove(0);
        assert(self@ =~= SockView { backlog: old(self)@.backlog.skip(1), ..old(self)@ });
        far
    }
}

/// What a socket keeps
pub proof fn lemma_sock(s: SockView)
    requires
        s.wf(),
    ensures
        s.local.wf(),
        s.peer.wf(),
        forall|i: int| 0 <= i < s.backlog.len() ==> (#[trigger] s.backlog[i]) < MAX_SOCKETS,
        s.backlog.len() <= BACKLOG,
        s.backlog_max <= BACKLOG,
        s.state == S_CONNECTED ==> s.far_end < MAX_SOCKETS && s.kind != KIND_DGRAM,
        s.kind == KIND_DGRAM ==> datagrams(s.rx),
        s.rx.len() <= RING,
{
    reveal(SockView::wf);
    lemma_stream_positive(s.flights);
}

proof fn lemma_stream_positive(q: Seq<Flight>)
    ensures
        stream_bytes(q) >= 0,
    decreases q.len(),
{
    if q.len() > 0 {
        lemma_stream_positive(q.skip(1));
    }
}

impl Net {
    /// A network of no hosts and no sockets
    pub fn new() -> (r: Net)
        ensures
            r.wf(),
            r@ == NetView::empty(),
    {
        reveal(Net::wf);
        let mut socks: Vec<Sock> = Vec::new();
        let mut i: usize = 0;
        while i < MAX_SOCKETS
            invariant
                i <= MAX_SOCKETS,
                socks.len() == i,
                forall|k: int|
                    0 <= k < i ==> (#[trigger] socks@[k]).wf() && socks@[k]@ == SockView::free(),
            decreases MAX_SOCKETS - i,
        {
            socks.push(Sock::fresh());
            i += 1;
        }
        let r = Net {
            hosts: Vec::new(),
            idents: vec![0; MAX_SOCKETS],
            socks,
            fdrefs: vec![FdRef { pid: 0, sock: 0, count: 0 }; MAX_FDREFS],
            now: 0,
            latency_ns: 0,
            in_flight: 0,
            next_due: 0,
            connections: 0,
            datagrams: 0,
            dropped: 0,
            bytes: 0,
            passthrough: 0,
        };
        proof {
            assert(r@.socks =~= NetView::empty().socks);
            assert(r@.idents =~= NetView::empty().idents);
            assert(r@.fdrefs =~= NetView::empty().fdrefs);
            assert(r@.hosts =~= NetView::empty().hosts);
            lemma_flying_none(r@.socks, MAX_SOCKETS as int);
            reveal(SockView::wf);
        }
        r
    }

    pub fn add_host(&mut self, name: &[u8]) -> (r: u32)
        requires
            old(self).wf(),
            old(self)@.hosts.len() < MAX_HOSTS,
        ensures
            final(self).wf(),
            r == old(self)@.hosts.len(),
            final(self)@ == old(self)@.with_host(name@),
    {
        reveal(Net::wf);
        let i: usize = self.hosts.len();
        let n: usize = if name.len() < NAME_MAX {
            name.len()
        } else {
            NAME_MAX
        };
        let kept = bytes::cut(name, 0, n);
        assert(kept@ =~= if name@.len() <= NAME_MAX {
            name@
        } else {
            name@.take(NAME_MAX as int)
        });
        self.hosts.push(
            Host { name: kept, addr: SUBNET + i as u32 + 1, next_port: FIRST_EPHEMERAL },
        );
        assert(self@.hosts =~= old(self)@.with_host(name@).hosts);
        i as u32
    }

    /// Delay for traffic between different hosts, in virtual time.
    pub fn set_latency(&mut self, ns: u64)
        requires
            old(self).wf(),
        ensures
            final(self).wf(),
            final(self)@ == (NetView { latency_ns: ns, ..old(self)@ }),
    {
        reveal(Net::wf);
        self.latency_ns = ns;
    }

    /// What went through the network so far
    pub fn counts(&self) -> (r: NetCounts)
        ensures
            r == self@.counts(),
    {
        NetCounts {
            connections: self.connections,
            datagrams: self.datagrams,
            dropped: self.dropped,
            bytes: self.bytes,
            passthrough: self.passthrough,
        }
    }

    pub fn host_by_name(&self, name: &[u8]) -> (r: Option<u32>)
        requires
            self.wf(),
        ensures
            r == host_named(self@.hosts, name@, 0),
    {
        reveal(Net::wf);
        let mut i: usize = 0;
        while i < self.hosts.len()
            invariant
                self.wf(),
                i <= self.hosts.len(),
                host_named(self@.hosts, name@, 0) == host_named(self@.hosts, name@, i as int),
            decreases self.hosts.len() - i,
        {
            proof {
                lemma_host(*self, i as int);
            }
            if same_bytes(self.hosts[i].name.as_slice(), name) {
                return Some(i as u32);
            }
            i += 1;
        }
        None
    }

    /// The address of a host
    pub fn host_addr(&self, host: u32) -> (r: u32)
        requires
            self.wf(),
            host < self@.hosts.len(),
        ensures
            r == self@.hosts[host as int].addr,
    {
        proof {
            reveal(Net::wf);
            lemma_host(*self, host as int);
        }
        self.hosts[host as usize].addr
    }

    /// Which host an address names, seen from `from`: loopback never
    /// leaves the caller's host. `Err(true)` means an address in the
    /// virtual subnet nobody owns, `Err(false)` one outside it.
    pub fn host_for_ip(&self, from: u32, ip: u32) -> (r: Result<u32, bool>)
        requires
            self.wf(),
        ensures
            r == self@.host_at(from, ip),
    {
        reveal(Net::wf);
        if loopback(ip) {
            return Ok(from);
        }
        let mut i: usize = 0;
        while i < self.hosts.len()
            invariant
                self.wf(),
                !is_loopback(ip),
                i <= self.hosts.len(),
                ip <= SUBNET || ip > SUBNET + i,
            decreases self.hosts.len() - i,
        {
            proof {
                reveal(Net::wf);
                lemma_host(*self, i as int);
            }
            if self.hosts[i].addr == ip {
                return Ok(i as u32);
            }
            i += 1;
        }
        Err(ip / 256 == SUBNET / 256)
    }

    pub fn socket(&mut self, host: u32, family: u8, kind: u8) -> (r: Result<u32, NetError>)
        requires
            old(self).wf(),
            host < old(self)@.hosts.len(),
        ensures
            final(self).wf(),
            match free_from(old(self)@.socks, 0) {
                Some(i) => r == Ok::<u32, NetError>(i as u32) && 0 <= i < MAX_SOCKETS && final(self)@
                    == old(self)@.with_new(i, host, family, kind),
                None => r == Err::<u32, NetError>(NetError::Errno(Errno::NFile)) && final(self)@
                    == old(self)@,
            },
    {
        reveal(Net::wf);
        let mut i: usize = 0;
        while i < MAX_SOCKETS
            invariant
                i <= MAX_SOCKETS,
                self.wf(),
                *self == *old(self),
                free_from(self@.socks, 0) == free_from(self@.socks, i as int),
                host < self@.hosts.len(),
            decreases MAX_SOCKETS - i,
        {
            proof {
                lemma_at(*self, i as int);
            }
            if self.socks[i].state == S_FREE {
                self.idents.set(i, 0);
                let s = &mut self.socks[i];
                s.renew(host, family, kind);
                proof {
                    lemma_changed(*old(self), *self, i as int);
                    assert(self@ =~= old(self)@.with_new(i as int, host, family, kind));
                }
                return Ok(i as u32);
            }
            i += 1;
        }
        Err(NetError::Errno(Errno::NFile))
    }

    pub fn by_ident(&self, ident: u64) -> (r: Option<u32>)
        requires
            self.wf(),
        ensures
            r == (if ident == 0 {
                None
            } else {
                identified(self@.idents, ident, 0)
            }),
    {
        reveal(Net::wf);
        if ident == 0 {
            return None;
        }
        let mut i: usize = 0;
        while i < self.idents.len()
            invariant
                self.wf(),
                ident != 0,
                self.idents@.len() == MAX_SOCKETS,
                i <= self.idents.len(),
                identified(self@.idents, ident, 0) == identified(self@.idents, ident, i as int),
            decreases self.idents.len() - i,
        {
            if self.idents[i] == ident {
                return Some(i as u32);
            }
            i += 1;
        }
        None
    }

    pub fn set_ident(&mut self, sock: u32, ident: u64)
        requires
            old(self).wf(),
            sock < MAX_SOCKETS,
        ensures
            final(self).wf(),
            final(self)@ == (NetView {
                idents: old(self)@.idents.update(sock as int, ident),
                ..old(self)@
            }),
    {
        reveal(Net::wf);
        self.idents.set(sock as usize, ident);
    }
}

/// A host, seen and as it is
proof fn lemma_host(net: Net, i: int)
    requires
        net.wf(),
        0 <= i < net@.hosts.len(),
    ensures
        net.hosts@.len() == net@.hosts.len(),
        net@.hosts[i] == net.hosts@[i]@,
        net@.hosts[i].next_port >= FIRST_EPHEMERAL,
{
    reveal(Net::wf);
}

/// A record, seen and as it is
proof fn lemma_at(net: Net, i: int)
    requires
        net.wf(),
        0 <= i < MAX_SOCKETS,
    ensures
        net.socks@.len() == MAX_SOCKETS,
        net.idents@.len() == MAX_SOCKETS,
        net.fdrefs@.len() == MAX_FDREFS,
        net.hosts@.len() == net@.hosts.len(),
        net@.socks.len() == MAX_SOCKETS,
        net@.socks[i] == net.socks@[i]@,
        net.socks@[i].wf(),
        net@.socks[i].wf(),
        net@.socks[i].at_host() ==> net@.socks[i].host < net@.hosts.len(),
        net@.socks[i].local.wf(),
        net@.socks[i].peer.wf(),
        net@.socks[i].backlog.len() <= BACKLOG,
        net@.socks[i].backlog_max <= BACKLOG,
        net@.socks[i].state == S_CONNECTED ==> net@.socks[i].far_end < MAX_SOCKETS
            && net@.socks[i].kind != KIND_DGRAM,
        net@.socks[i].rx.len() <= RING,
{
    reveal(Net::wf);
    lemma_sock(net@.socks[i]);
}

/// Only totals changed.
proof fn lemma_kept(was: Net, now: Net)
    requires
        was.wf(),
        now.socks@ == was.socks@,
        now.hosts@ == was.hosts@,
        now.idents@.len() == was.idents@.len(),
        now.fdrefs@ == was.fdrefs@,
        was.in_flight <= now.in_flight,
    ensures
        now.wf(),
        now@.socks == was@.socks,
        now@.hosts == was@.hosts,
{
    reveal(Net::wf);
}

/// Only what the processes hold changed.
proof fn lemma_recorded(was: Net, now: Net)
    requires
        was.wf(),
        now.socks@ == was.socks@,
        now.hosts@ == was.hosts@,
        now.idents@ == was.idents@,
        now.in_flight == was.in_flight,
        now.fdrefs@.len() == was.fdrefs@.len(),
        refs::one_each(now.fdrefs@),
    ensures
        now.wf(),
        now@.socks == was@.socks,
        now@.hosts == was@.hosts,
{
    reveal(Net::wf);
}

/// One socket changed, and nothing that the others depend on
proof fn lemma_changed(was: Net, now: Net, i: int)
    requires
        was.wf(),
        0 <= i < MAX_SOCKETS,
        now.socks@.len() == MAX_SOCKETS,
        forall|k: int| 0 <= k < MAX_SOCKETS && k != i ==> now.socks@[k] == was.socks@[k],
        now.socks@[i].wf(),
        now@.hosts == was@.hosts,
        now.idents@.len() == was.idents@.len(),
        now.fdrefs@ == was.fdrefs@,
        now.socks@[i]@.at_host() ==> now.socks@[i]@.host < was@.hosts.len(),
        was.in_flight + now.socks@[i]@.flights.len() - was.socks@[i]@.flights.len()
            <= now.in_flight,
    ensures
        now.wf(),
        now@.socks == was@.socks.update(i, now.socks@[i]@),
{
    reveal(Net::wf);
    reveal(Sock::wf);
    assert(now@.socks =~= was@.socks.update(i, now.socks@[i]@));
    lemma_flying_update(was@.socks, i, now.socks@[i]@, MAX_SOCKETS as int);
}

impl Net {
    fn open_far(&mut self, i: u32, local: Addr, peer: Addr, far_end: u32)
        requires
            old(self).wf(),
            i < MAX_SOCKETS,
            local.wf(),
            peer.wf(),
            far_end < MAX_SOCKETS,
            old(self)@.socks[i as int].kind != KIND_DGRAM,
            old(self)@.socks[i as int].host < old(self)@.hosts.len(),
        ensures
            final(self).wf(),
            final(self)@ == old(self)@.with_sock(i as int, SockView { state: S_CONNECTED, pending: true, local, peer, far_end, ..old(self)@.socks[i as int] }),
    {
        let ghost was = *self;
        proof {
            lemma_at(was, i as int);
        }
        let s = &mut self.socks[i as usize];
        s.open_far(local, peer, far_end);
        proof {
            lemma_changed(was, *self, i as int);
            assert(self@ =~= was@.with_sock(i as int, self.socks@[i as int]@));
        }
    }

    fn join(&mut self, i: u32, peer: Addr, far_end: u32)
        requires
            old(self).wf(),
            i < MAX_SOCKETS,
            peer.wf(),
            far_end < MAX_SOCKETS,
            old(self)@.socks[i as int].kind != KIND_DGRAM,
            old(self)@.socks[i as int].host < old(self)@.hosts.len(),
        ensures
            final(self).wf(),
            final(self)@ == old(self)@.with_sock(i as int, SockView { state: S_CONNECTED, peer, far_end, ..old(self)@.socks[i as int] }),
    {
        let ghost was = *self;
        proof {
            lemma_at(was, i as int);
        }
        let s = &mut self.socks[i as usize];
        s.join(peer, far_end);
        proof {
            lemma_changed(was, *self, i as int);
            assert(self@ =~= was@.with_sock(i as int, self.socks@[i as int]@));
        }
    }

    fn enqueue(&mut self, i: u32, far: u32)
        requires
            old(self).wf(),
            i < MAX_SOCKETS,
            far < MAX_SOCKETS,
            old(self)@.socks[i as int].backlog.len() < BACKLOG,
        ensures
            final(self).wf(),
            final(self)@ == old(self)@.with_sock(i as int, SockView { backlog: old(self)@.socks[i as int].backlog.push(far), ..old(self)@.socks[i as int] }),
    {
        let ghost was = *self;
        proof {
            lemma_at(was, i as int);
        }
        let s = &mut self.socks[i as usize];
        s.enqueue(far);
        proof {
            lemma_changed(was, *self, i as int);
            assert(self@ =~= was@.with_sock(i as int, self.socks@[i as int]@));
        }
    }
}

fn same_bytes(a: &[u8], b: &[u8]) -> (r: bool)
    ensures
        r == (a@ == b@),
{
    if a.len() != b.len() {
        return false;
    }
    let mut i: usize = 0;
    while i < a.len()
        invariant
            i <= a@.len(),
            a@.len() == b@.len(),
            forall|k: int| 0 <= k < i ==> a@[k] == b@[k],
        decreases a@.len() - i,
    {
        if a[i] != b[i] {
            return false;
        }
        i += 1;
    }
    assert(a@ =~= b@);
    true
}

} // verus!
