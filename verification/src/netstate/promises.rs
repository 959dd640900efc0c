//! What the calls on virtual sockets have to do with each other: what `poll`
//! says and what a call then does, what is sent and what arrives, who connects
//! and who accepts.

use vstd::prelude::*;
use super::traffic::PayloadView;
use super::{
    Addr, Flight, NetError, NetView, SockView, FAMILY_INET, FIRST_EPHEMERAL, FLIGHT_HEADER,
    KIND_DGRAM, K_BYTES, K_DGRAM, K_FIN, MAX_SOCKETS, RING, SUBNET, S_BOUND, S_CLOSED, S_CONNECTED,
    S_FREE, S_LISTENING, S_NEW,
};
use crate::errno::Errno;
use crate::netstate;

verus! {

proof fn lemma_words(wanted: i16, r: bool, w: bool, h: bool)
    ensures
        ({
            let read = if wanted & 0x41 != 0 && r {
                wanted & 0x41
            } else {
                0i16
            };
            let write = if wanted & 0x04 != 0 && w {
                wanted & 0x04
            } else {
                0i16
            };
            let over = if h {
                0x10i16
            } else {
                0i16
            };
            let all = read | write | over;
            &&& (all & 0x01 != 0) == (wanted & 0x01 != 0 && r)
            &&& (all & 0x40 != 0) == (wanted & 0x40 != 0 && r)
            &&& (all & 0x04 != 0) == (wanted & 0x04 != 0 && w)
            &&& (all & 0x10 != 0) == h
            &&& all & 0x2A == 0
        }),
{
    assert(({
        let read = if wanted & 0x41 != 0 && r {
            wanted & 0x41
        } else {
            0i16
        };
        let write = if wanted & 0x04 != 0 && w {
            wanted & 0x04
        } else {
            0i16
        };
        let over = if h {
            0x10i16
        } else {
            0i16
        };
        let all = read | write | over;
        &&& (all & 0x01 != 0) == (wanted & 0x01 != 0 && r)
        &&& (all & 0x40 != 0) == (wanted & 0x40 != 0 && r)
        &&& (all & 0x04 != 0) == (wanted & 0x04 != 0 && w)
        &&& (all & 0x10 != 0) == h
        &&& all & 0x2A == 0
    })) by (bit_vector);
}

/// Whether a call that reads from the socket would have to wait: an `accept`
/// on one that listens, else a `recv`. A datagram socket has a datagram, or
/// has none.
pub open spec fn reading_waits(net: NetView, sock: int) -> bool {
    if net.socks[sock].kind == KIND_DGRAM {
        net.socks[sock].rx.len() == 0
    } else if net.socks[sock].state == S_LISTENING {
        net.accepted(sock).1 == Err::<u32, NetError>(NetError::WouldBlock)
    } else {
        net.received(sock, 1, false).1 == Err::<usize, NetError>(NetError::WouldBlock)
    }
}

/// `poll` and the calls agree. It says that there is something to read exactly
/// where `accept` or `recv` would not have to wait, and that there is room to
/// write exactly where `send` would not; it tells of nothing that was not
/// asked for, but for the end of both directions.
#[verifier::rlimit(40)]
pub proof fn poll_says_what_a_call_would_do(net: NetView, sock: int, wanted: i16, room: int, b: Seq<
    u8,
>)
    requires
        net.wf(),
        0 <= sock < MAX_SOCKETS,
        room > 0,
        b.len() > 0,
    ensures
        ({
            let said = net.events(sock, wanted);
            let s = net.socks[sock];
            &&& wanted & 0x01 != 0 ==> (said & 0x01 != 0 <==> !reading_waits(net, sock))
            &&& wanted & 0x40 != 0 ==> (said & 0x40 != 0 <==> !reading_waits(net, sock))
            &&& wanted & 0x04 != 0 && s.kind != KIND_DGRAM ==> (said & 0x04 != 0 <==> net.sent(
                sock,
                b,
            ).1 != Err::<usize, NetError>(NetError::WouldBlock))
            &&& wanted & 0x04 != 0 && s.kind == KIND_DGRAM ==> said & 0x04 != 0
            &&& wanted & 0x01 == 0 ==> said & 0x01 == 0
            &&& wanted & 0x40 == 0 ==> said & 0x40 == 0
            &&& wanted & 0x04 == 0 ==> said & 0x04 == 0
            &&& said & 0x10 != 0 <==> s.kind != KIND_DGRAM && s.state == S_CONNECTED && s.fin
                && net.socks[s.far_end as int].state == S_CLOSED
            &&& said & 0x2A == 0
            &&& s.kind != KIND_DGRAM && s.state != S_LISTENING ==> (net.received(
                sock,
                room,
                false,
            ).1 == Err::<usize, NetError>(NetError::WouldBlock) <==> reading_waits(net, sock))
        }),
{
    lemma_words(wanted, net.readable(sock), net.writable(sock), net.hung_up(sock));
    if net.socks[sock].kind != KIND_DGRAM {
        lemma_sending(net, sock, b);
    }
    reveal(SockView::wf);
    assert(net.socks[sock].wf());
}

proof fn lemma_sending(net: NetView, sock: int, b: Seq<u8>)
    requires
        net.wf(),
        0 <= sock < MAX_SOCKETS,
        b.len() > 0,
        net.socks[sock].kind != KIND_DGRAM,
    ensures
        net.writable(sock) <==> net.sent(sock, b).1 != Err::<usize, NetError>(
            NetError::WouldBlock,
        ),
{
    reveal(SockView::wf);
    let s = net.socks[sock];
    assert(s.wf());
    if s.state == S_CONNECTED {
        let d = net.socks[s.far_end as int];
        assert(d.wf());
        netstate::lemma_stream_positive(d.flights);
        if d.flights.len() == 0 {
            assert(netstate::records(d.flights).len() == 0);
        }
    }
}

/// What `kevent` is told of a socket agrees with the calls too: it is ready
/// where they would not have to wait; of a stream it says how many bytes a
/// `recv` with room for them would give, and whether the peer has sent its
/// last.
pub proof fn readiness_says_what_a_call_would_do(net: NetView, sock: int, b: Seq<u8>)
    requires
        net.wf(),
        0 <= sock < MAX_SOCKETS,
        b.len() > 0,
    ensures
        ({
            let s = net.socks[sock];
            let r = net.to_read(sock);
            &&& r.ready <==> !reading_waits(net, sock)
            &&& s.kind != KIND_DGRAM && s.state == S_CONNECTED ==> r.data == s.rx.len() && r.eof
                == s.fin && (s.rx.len() > 0 ==> net.received(sock, RING as int, false).1 == Ok::<
                usize,
                NetError,
            >(r.data as usize))
            &&& s.kind != KIND_DGRAM && s.state == S_LISTENING ==> (r.data > 0 <==> s.backlog.len()
                > 0)
            &&& s.kind != KIND_DGRAM ==> (net.to_write(sock).ready <==> net.sent(sock, b).1 != Err::<
                usize,
                NetError,
            >(NetError::WouldBlock))
        }),
{
    if net.socks[sock].kind != KIND_DGRAM {
        lemma_sending(net, sock, b);
    }
    reveal(SockView::wf);
    assert(net.socks[sock].wf());
    netstate::lemma_sock(net.socks[sock]);
}

/// `recv` takes all that there is room for and no more, and waits only where
/// there is nothing and more may come.
pub proof fn recv_takes_what_there_is(net: NetView, sock: int, room: int, peek: bool)
    requires
        net.wf(),
        0 <= sock < MAX_SOCKETS,
        0 <= room <= usize::MAX,
    ensures
        ({
            let s = net.socks[sock];
            let (after, r) = net.received(sock, room, peek);
            &&& s.state != S_CONNECTED <==> r == Err::<usize, NetError>(
                NetError::Errno(Errno::NotConn),
            )
            &&& s.state == S_CONNECTED && s.rx.len() > 0 ==> (r matches Ok(n) && n <= room && n
                <= s.rx.len() && (n == room || n == s.rx.len()))
            &&& s.state == S_CONNECTED && s.rx.len() == 0 && room > 0 ==> r == (if s.fin
                || s.shut_rd {
                Ok::<usize, NetError>(0usize)
            } else {
                Err::<usize, NetError>(NetError::WouldBlock)
            })
            &&& peek ==> after == net
            &&& r is Ok && !peek ==> after.socks[sock].rx == s.rx.skip(r.unwrap() as int)
            &&& forall|i: int| 0 <= i < MAX_SOCKETS && i != sock ==> after.socks[i] == net.socks[i]
        }),
{
    netstate::lemma_sock(net.socks[sock]);
    let s = net.socks[sock];
    assert(s.rx.skip(0) =~= s.rx);
}

/// `accept` hands out the connection that was queued first and keeps the rest
/// in order.
pub proof fn accept_takes_the_oldest(net: NetView, l: int)
    requires
        net.wf(),
        0 <= l < MAX_SOCKETS,
    ensures
        ({
            let s = net.socks[l];
            let (after, r) = net.accepted(l);
            &&& s.state != S_LISTENING ==> r == Err::<u32, NetError>(NetError::Errno(Errno::Inval))
            &&& s.state == S_LISTENING && s.backlog.len() == 0 ==> r == Err::<u32, NetError>(
                NetError::WouldBlock,
            )
            &&& s.state == S_LISTENING && s.backlog.len() > 0 ==> r == Ok::<u32, NetError>(
                s.backlog[0],
            ) && (s.backlog[0] != l ==> after.socks[l].backlog == s.backlog.subrange(
                1,
                s.backlog.len() as int,
            ) && !after.socks[s.backlog[0] as int].pending)
            &&& r is Err ==> after == net
        }),
{
    reveal(SockView::wf);
    let s = net.socks[l];
    assert(s.wf());
    if s.state == S_LISTENING && s.backlog.len() > 0 {
        assert(s.backlog[0] < MAX_SOCKETS);
        assert(s.backlog.skip(1) =~= s.backlog.subrange(1, s.backlog.len() as int));
    }
}

/// Two ends of a connection: each is connected to the other.
pub open spec fn joined_to(net: NetView, a: int, b: int) -> bool {
    &&& net.socks[a].state == S_CONNECTED
    &&& net.socks[b].state == S_CONNECTED
    &&& net.socks[a].far_end == b
    &&& net.socks[b].far_end == a
}

proof fn lemma_listener(
    socks: Seq<SockView>,
    i: int,
    kind: u8,
    family: u8,
    dest_host: u32,
    dest: Addr,
)
    requires
        0 <= i,
    ensures
        match netstate::naming::listener_from(socks, i, kind, family, dest_host, dest) {
            Some(l) => i <= l < socks.len() && netstate::naming::listens(
                socks[l],
                kind,
                family,
                dest_host,
                dest,
            ),
            None => forall|k: int|
                i <= k < socks.len() ==> !netstate::naming::listens(
                    #[trigger] socks[k],
                    kind,
                    family,
                    dest_host,
                    dest,
                ),
        },
    decreases socks.len() - i,
{
    if i < socks.len() {
        lemma_listener(socks, i + 1, kind, family, dest_host, dest);
    }
}

proof fn lemma_free(socks: Seq<SockView>, i: int)
    requires
        0 <= i,
    ensures
        match netstate::free_from(socks, i) {
            Some(k) => i <= k < socks.len() && socks[k].state == S_FREE,
            None => forall|k: int| i <= k < socks.len() ==> (#[trigger] socks[k]).state != S_FREE,
        },
    decreases socks.len() - i,
{
    if i < socks.len() {
        lemma_free(socks, i + 1);
    }
}

/// A connection that was made has two ends, each connected to the other and
/// called what the other calls it, and the far one waits last in line at a
/// socket that listens under the name asked for, on the host asked for.
#[verifier::rlimit(40)]
pub proof fn a_connection_has_two_ends(net: NetView, sock: int, dest_host: u32, dest: Addr)
    requires
        net.wf(),
        0 <= sock < MAX_SOCKETS,
        dest_host < net.hosts.len(),
        net.connected(sock, dest_host, dest).1 is Ok,
    ensures
        ({
            let after = net.connected(sock, dest_host, dest).0;
            let far = after.socks[sock].far_end as int;
            &&& 0 <= far < MAX_SOCKETS
            &&& far != sock
            &&& joined_to(after, sock, far)
            &&& net.socks[far].state == S_FREE
            &&& after.socks[far].host == dest_host
            &&& after.socks[far].pending
            &&& after.socks[far].peer == after.socks[sock].local
            &&& after.socks[sock].peer == after.socks[far].local
            &&& exists|l: int|
                0 <= l < MAX_SOCKETS && (#[trigger] net.socks[l]).state == S_LISTENING
                    && net.socks[l].host == dest_host && net.socks[l].local.family == dest.family
                    && (dest.family == FAMILY_INET ==> net.socks[l].local.port == dest.port)
                    && (net.socks[sock].family == FAMILY_INET ==> net.socks[l].local.ip == 0
                    || net.socks[l].local.ip == dest.ip || 0x7F00_0000 <= net.socks[l].local.ip
                    < 0x8000_0000 && 0x7F00_0000 <= dest.ip < 0x8000_0000)
                    && after.socks[l].backlog == net.socks[l].backlog.push(far as u32)
        }),
{
    let s = net.socks[sock];
    lemma_listener(net.socks, 0, s.kind, s.family, dest_host, dest);
    let l = netstate::naming::listener_from(
        net.socks,
        0,
        s.kind,
        s.family,
        dest_host,
        dest,
    ).unwrap();
    let named = net.named_to_connect(sock, dest).unwrap();
    lemma_named_to_connect(net, sock, dest);
    lemma_free(named.socks, 0);
    let far = netstate::free_from(named.socks, 0).unwrap();
    let after = net.connected(sock, dest_host, dest).0;
    assert(after == named.joined(sock, l, far, dest_host, dest));
    assert(named.socks[far].state == S_FREE && named.socks[l].state == S_LISTENING);
    assert(net.socks[far] == named.socks[far]);
    lemma_joined(named, sock, l, far, dest_host, dest);
    assert(net.socks[l].state == S_LISTENING);
    assert forall|ip: u32| #[trigger] netstate::is_loopback(ip) <==> 0x7F00_0000 <= ip
        < 0x8000_0000 by {
    }
}

proof fn lemma_named_to_connect(net: NetView, sock: int, dest: Addr)
    requires
        0 <= sock < net.socks.len(),
        net.named_to_connect(sock, dest) is Some,
    ensures
        ({
            let after = net.named_to_connect(sock, dest).unwrap();
            &&& after.socks.len() == net.socks.len()
            &&& after.socks[sock].state == net.socks[sock].state
            &&& after.socks[sock].family == net.socks[sock].family
            &&& forall|i: int|
                0 <= i < net.socks.len() && i != sock ==> #[trigger] after.socks[i] == net.socks[i]
        }),
{
}

#[verifier::rlimit(40)]
proof fn lemma_joined(net: NetView, sock: int, l: int, far: int, dest_host: u32, dest: Addr)
    requires
        net.socks.len() == MAX_SOCKETS,
        0 <= sock < MAX_SOCKETS,
        0 <= l < MAX_SOCKETS,
        0 <= far < MAX_SOCKETS,
        sock != l,
        sock != far,
        l != far,
    ensures
        ({
            let after = net.joined(sock, l, far, dest_host, dest);
            &&& joined_to(after, sock, far)
            &&& after.socks[sock].far_end == far
            &&& after.socks[far].host == dest_host
            &&& after.socks[far].pending
            &&& after.socks[far].peer == after.socks[sock].local
            &&& after.socks[sock].peer == after.socks[far].local
            &&& after.socks[l].backlog == net.socks[l].backlog.push(far as u32)
        }),
{
    let s = net.socks[sock];
    let local = if s.family == FAMILY_INET {
        Addr { ip: dest.ip, ..net.socks[l].local }
    } else {
        net.socks[l].local
    };
    let made = net.with_new(far, dest_host, s.family, s.kind);
    assert(made.socks[sock] == s);
    assert(made.socks[l] == net.socks[l]);
    assert(made.socks[far].host == dest_host);
    let new = SockView {
        state: S_CONNECTED,
        pending: true,
        local,
        peer: s.local,
        far_end: sock as u32,
        ..made.socks[far]
    };
    let a = made.with_sock(far, new);
    assert(a.socks[sock] == s && a.socks[l] == net.socks[l] && a.socks[far] == new);
    let after = net.joined(sock, l, far, dest_host, dest);
    assert(after == a.attached(sock, l, far as u32, local));
    assert(after.socks[far] == new);
    assert(after.socks[sock] == (SockView {
        state: S_CONNECTED,
        peer: local,
        far_end: far as u32,
        ..s
    }));
}

/// A socket that listens is reached: where exactly one socket of the host
/// listens at a port, with room in its queue and a record free, a connection to
/// the port from a bound socket of the kind is made and queued there.
#[verifier::rlimit(40)]
pub proof fn a_listener_is_reached(net: NetView, sock: int, l: int, dest_host: u32, dest: Addr)
    requires
        net.wf(),
        0 <= sock < MAX_SOCKETS,
        0 <= l < MAX_SOCKETS,
        dest_host < net.hosts.len(),
        net.socks[sock].state == S_BOUND,
        net.socks[sock].family == FAMILY_INET,
        dest.family == FAMILY_INET,
        net.socks[l].state == S_LISTENING,
        net.socks[l].host == dest_host,
        net.socks[l].kind == net.socks[sock].kind,
        net.socks[l].local.family == FAMILY_INET,
        net.socks[l].local.port == dest.port,
        net.socks[l].local.ip == 0 || net.socks[l].local.ip == dest.ip,
        net.socks[l].backlog.len() < net.socks[l].backlog_max,
        forall|i: int|
            0 <= i < MAX_SOCKETS && i != l && (#[trigger] net.socks[i]).state == S_LISTENING
                && net.socks[i].host == dest_host && net.socks[i].local.family == FAMILY_INET
                ==> net.socks[i].local.port != dest.port,
        exists|i: int| 0 <= i < MAX_SOCKETS && (#[trigger] net.socks[i]).state == S_FREE,
    ensures
        net.connected(sock, dest_host, dest).1 == Ok::<(), NetError>(()),
        net.connected(sock, dest_host, dest).0.socks[l].backlog.len() == net.socks[l].backlog.len()
            + 1,
        net.connected(sock, dest_host, dest).0.accepted(l).1 is Ok,
{
    let s = net.socks[sock];
    assert(netstate::naming::listens(net.socks[l], s.kind, s.family, dest_host, dest));
    lemma_listener(net.socks, 0, s.kind, s.family, dest_host, dest);
    let found = netstate::naming::listener_from(net.socks, 0, s.kind, s.family, dest_host, dest);
    assert(found == Some(l)) by {
        let k = found.unwrap();
        if k != l {
            assert(net.socks[k].local.port != dest.port);
        }
    }
    lemma_free(net.socks, 0);
    let far = netstate::free_from(net.socks, 0).unwrap();
    assert(far != sock && far != l && l != sock);
}

/// Where nobody listens at a port of a host, a connection to it is refused.
pub proof fn a_port_without_a_listener_refuses(net: NetView, sock: int, dest_host: u32, dest: Addr)
    requires
        net.wf(),
        0 <= sock < MAX_SOCKETS,
        net.socks[sock].state == S_NEW || net.socks[sock].state == S_BOUND,
        forall|i: int|
            0 <= i < MAX_SOCKETS && (#[trigger] net.socks[i]).state == S_LISTENING
                && net.socks[i].host == dest_host ==> net.socks[i].local.family != dest.family || (
            dest.family == FAMILY_INET && net.socks[i].local.port != dest.port),
    ensures
        net.connected(sock, dest_host, dest) == (
            net,
            Err::<(), NetError>(NetError::Errno(Errno::ConnRefused)),
        ),
{
    let s = net.socks[sock];
    lemma_listener(net.socks, 0, s.kind, s.family, dest_host, dest);
}

/// What is sent between hosts is on its way for the latency, behind everything
/// sent before; within a host, with nothing on its way, it is there at once.
/// All that fits is taken.
#[verifier::rlimit(40)]
pub proof fn what_is_sent_takes_the_latency(net: NetView, sock: int, b: Seq<u8>)
    requires
        net.wf(),
        0 <= sock < MAX_SOCKETS,
        net.socks[sock].kind != KIND_DGRAM,
        b.len() > 0,
        net.sent(sock, b).1 is Ok,
    ensures
        ({
            let (after, r) = net.sent(sock, b);
            let n = r.unwrap() as int;
            let far = net.socks[sock].far_end as int;
            let d = net.socks[far];
            let a = after.socks[far];
            let delay = if d.host == net.socks[sock].host {
                0
            } else {
                net.latency_ns
            };
            &&& 0 < n <= b.len()
            &&& delay == 0 && d.flights.len() == 0 ==> a.rx == d.rx + b.take(n) && a.flights
                == d.flights
            &&& delay != 0 || d.flights.len() > 0 ==> {
                &&& a.rx == d.rx
                &&& a.flights.len() == d.flights.len() + 1
                &&& a.flights.drop_last() == d.flights
                &&& a.flights.last().body == b.take(n)
                &&& a.flights.last().kind == K_BYTES
                &&& net.now + delay <= u64::MAX ==> a.flights.last().due == net.now + delay
            }
            &&& d.flights.len() == 0 && b.len() + d.rx.len() + 2 * FLIGHT_HEADER <= RING ==> n
                == b.len()
            &&& a.fin == d.fin
        }),
{
    reveal(SockView::wf);
    let s = net.socks[sock];
    assert(s.wf());
    let far = s.far_end as int;
    let d = net.socks[far];
    assert(d.wf());
    netstate::lemma_stream_positive(d.flights);
    if d.flights.len() == 0 {
        assert(netstate::records(d.flights).len() == 0);
        assert(netstate::stream_bytes(d.flights) == 0);
    }
    let a = net.sent(sock, b).0.socks[far];
    if a.flights.len() > d.flights.len() {
        assert(a.flights.drop_last() =~= d.flights);
    }
}

/// The network goes by the first thing that arrives: nothing on its way is due
/// before that.
pub open spec fn keeps_time(net: NetView) -> bool {
    forall|i: int|
        0 <= i < MAX_SOCKETS && (#[trigger] net.socks[i]).flights.len() > 0 ==> net.due
            <= net.socks[i].flights[0].due
}

proof fn lemma_earliest_least(socks: Seq<SockView>, n: int, i: int)
    requires
        0 <= i < n,
    ensures
        socks[i].flights.len() > 0 ==> netstate::traffic::earliest(socks, n)
            <= socks[i].flights[0].due,
    decreases n,
{
    if i < n - 1 {
        lemma_earliest_least(socks, n - 1, i);
    }
}

proof fn lemma_delivered_keeps_time(net: NetView, host: u32, dst: int, p: PayloadView)
    requires
        keeps_time(net),
        net.socks.len() == MAX_SOCKETS,
        0 <= dst < MAX_SOCKETS,
        netstate::flying(net.socks, MAX_SOCKETS as int) <= net.in_flight,
    ensures
        keeps_time(net.delivered(host, dst, p).0),
{
    let after = net.delivered(host, dst, p).0;
    assert forall|i: int|
        0 <= i < MAX_SOCKETS && (#[trigger] after.socks[i]).flights.len() > 0 implies after.due
        <= after.socks[i].flights[0].due by {
        if i != dst {
            assert(after.socks[i] == net.socks[i]);
            netstate::lemma_flying_some(net.socks, i, MAX_SOCKETS as int);
        } else {
            netstate::lemma_flying_some(net.socks, dst, MAX_SOCKETS as int);
        }
    }
}

/// Nothing on its way is forgotten: sending and the passing of time keep the
/// network's next moment no later than the first arrival, and once the clock
/// has moved, nothing that is due heads a queue.
#[verifier::rlimit(40)]
pub proof fn no_payload_is_forgotten(net: NetView, sock: int, b: Seq<u8>, now: u64)
    requires
        net.wf(),
        keeps_time(net),
        0 <= sock < MAX_SOCKETS,
    ensures
        keeps_time(net.sent(sock, b).0),
        keeps_time(net.shut(sock, false, true).0),
        keeps_time(net.advanced(now).0),
        forall|i: int|
            0 <= i < MAX_SOCKETS && (#[trigger] net.advanced(now).0.socks[i]).flights.len() > 0
                ==> net.advanced(now).0.socks[i].flights[0].due > now,
        net.advanced(now).0.now == now,
{
    reveal(SockView::wf);
    let s = net.socks[sock];
    assert(s.wf());
    if s.state == S_CONNECTED {
        lemma_delivered_keeps_time(net, s.host, s.far_end as int, PayloadView::Bytes(b));
        let shut = net.with_sock(sock, SockView { shut_wr: true, ..s });
        assert(keeps_time(shut)) by {
            assert forall|i: int|
                0 <= i < MAX_SOCKETS && (#[trigger] shut.socks[i]).flights.len()
                    > 0 implies shut.due <= shut.socks[i].flights[0].due by {
                assert(net.socks[i].flights == shut.socks[i].flights);
            }
        }
        netstate::lemma_flying_update(
            net.socks,
            sock,
            SockView { shut_wr: true, ..s },
            MAX_SOCKETS as int,
        );
        lemma_delivered_keeps_time(shut, s.host, s.far_end as int, PayloadView::Fin);
    }
    let after = net.advanced(now).0;
    if net.in_flight == 0 || net.due > now {
        assert forall|i: int| 0 <= i < MAX_SOCKETS && (#[trigger] after.socks[i]).flights.len()
            > 0 implies after.socks[i].flights[0].due > now by {
            netstate::lemma_flying_some(net.socks, i, MAX_SOCKETS as int);
            assert(net.socks[i] == after.socks[i]);
        }
        assert(keeps_time(after)) by {
            assert forall|i: int|
                0 <= i < MAX_SOCKETS && (#[trigger] after.socks[i]).flights.len()
                    > 0 implies after.due <= after.socks[i].flights[0].due by {
                assert(net.socks[i] == after.socks[i]);
            }
        }
    } else {
        lemma_settled_now(NetView { now, ..net }, now, 0);
        assert forall|i: int| 0 <= i < MAX_SOCKETS && (#[trigger] after.socks[i]).flights.len()
            > 0 implies after.socks[i].flights[0].due > now && after.due
            <= after.socks[i].flights[0].due by {
            netstate::laws::what_arrives_is_due(net, now, i);
            lemma_earliest_least(after.socks, MAX_SOCKETS as int, i);
        }
    }
}

proof fn lemma_settled_now(net: NetView, now: u64, i: int)
    requires
        0 <= i,
        net.socks.len() == MAX_SOCKETS,
    ensures
        net.settled(now, i).now == net.now,
        net.settled(now, i).socks.len() == MAX_SOCKETS,
    decreases
            (if i < MAX_SOCKETS {
                MAX_SOCKETS - i
            } else {
                0
            }),
            net.socks[i].flights.len(),
{
    if i < MAX_SOCKETS {
        if net.socks[i].flights.len() == 0 || net.socks[i].flights[0].due > now {
            lemma_settled_now(net, now, i + 1);
        } else {
            lemma_settled_now(net.landed(i), now, i);
        }
    }
}

/// Landing one payload at the head of its queue: a stream has its bytes next,
/// the end of a stream is the end, and a datagram is there whole where it fits
/// and gone where it does not.
pub proof fn what_lands_is_there(net: NetView, i: int)
    requires
        net.wf(),
        0 <= i < MAX_SOCKETS,
        net.socks[i].flights.len() > 0,
    ensures
        ({
            let s = net.socks[i];
            let f = s.flights[0];
            let a = net.landed(i).socks[i];
            &&& a.flights == s.flights.subrange(1, s.flights.len() as int)
            &&& f.kind == K_FIN ==> a.fin && a.rx == s.rx
            &&& f.kind == K_BYTES ==> a.rx == s.rx + f.body && a.fin == s.fin
            &&& f.kind == K_DGRAM && s.rx.len() + f.body.len() <= RING ==> a.rx == s.rx + f.body
            &&& f.kind == K_DGRAM && s.rx.len() + f.body.len() > RING ==> a.rx == s.rx
                && net.landed(i).dropped == net.dropped.wrapping_add(1)
        }),
{
    let s = net.socks[i];
    assert(s.flights.skip(1) =~= s.flights.subrange(1, s.flights.len() as int));
}

/// The end of a stream reaches the peer: after `shutdown` of the writing side
/// no more can be sent, and the peer has the end, or has it on its way behind
/// everything sent before, if there is room for one.
#[verifier::rlimit(40)]
pub proof fn an_end_is_passed_on(net: NetView, sock: int, b: Seq<u8>)
    requires
        net.wf(),
        0 <= sock < MAX_SOCKETS,
        net.socks[sock].state == S_CONNECTED,
        !net.socks[sock].shut_wr,
        net.socks[sock].far_end != sock,
        net.socks[net.socks[sock].far_end as int].flight_len() + FLIGHT_HEADER <= RING,
    ensures
        ({
            let (after, r) = net.shut(sock, false, true);
            let far = net.socks[sock].far_end as int;
            let d = net.socks[far];
            let a = after.socks[far];
            &&& r == Ok::<(), NetError>(())
            &&& after.sent(sock, b).1 == Err::<usize, NetError>(NetError::Errno(Errno::Pipe))
            &&& a.rx == d.rx
            &&& a.fin || (a.flights.len() == d.flights.len() + 1 && a.flights.drop_last()
                == d.flights && a.flights.last().kind == K_FIN)
        }),
{
    reveal(SockView::wf);
    let s = net.socks[sock];
    assert(s.wf());
    let far = s.far_end as int;
    let a = net.shut(sock, false, true).0.socks[far];
    let d = net.socks[far];
    if a.flights.len() > d.flights.len() {
        assert(a.flights.drop_last() =~= d.flights);
    }
}

/// A name that was asked for is the one that was given, and no other socket of
/// the kind has it on the host; one without a port gets one of the ephemeral
/// ones. Only a name that is taken, or not this host's, is refused.
#[verifier::rlimit(40)]
pub proof fn a_bound_name_is_the_one_asked_for(net: NetView, sock: int, addr: Addr)
    requires
        net.wf(),
        0 <= sock < MAX_SOCKETS,
        net.socks[sock].state == S_NEW,
        net.socks[sock].family == FAMILY_INET,
        addr.family == FAMILY_INET,
    ensures
        ({
            let (after, r) = net.bound(sock, addr);
            let s = net.socks[sock];
            let a = after.socks[sock];
            let other = |i: int|
                0 <= i < MAX_SOCKETS && (net.socks[i].state == S_BOUND || net.socks[i].state
                    == S_LISTENING) && net.socks[i].host == s.host && net.socks[i].kind == s.kind
                    && net.socks[i].local.family == FAMILY_INET;
            let ours = addr.ip == 0 || addr.ip / 0x100_0000 == 127 || addr.ip == SUBNET + s.host + 1;
            &&& r is Ok ==> a.state == S_BOUND && a.local.ip == addr.ip && a.local.family
                == FAMILY_INET && ours
            &&& r is Ok && addr.port != 0 ==> a.local.port == addr.port
            &&& r is Ok && addr.port == 0 ==> a.local.port >= FIRST_EPHEMERAL
            &&& r is Ok ==> forall|i: int|
                #![trigger net.socks[i]]
                other(i) ==> net.socks[i].local.port != a.local.port
            &&& ours && addr.port != 0 && (forall|i: int|
                #![trigger net.socks[i]]
                other(i) ==> net.socks[i].local.port != addr.port) ==> r is Ok
            &&& ours && addr.port != 0 && (exists|i: int|
                #![trigger net.socks[i]]
                other(i) && net.socks[i].local.port == addr.port) ==> r == Err::<(), NetError>(
                NetError::Errno(Errno::AddrInUse),
            )
            &&& !ours ==> r == Err::<(), NetError>(NetError::Errno(Errno::AddrNotAvail))
        }),
{
    let s = net.socks[sock];
    assert(s.at_host());
    let (after, r) = net.bound(sock, addr);
    let name = after.socks[sock].local;
    if r is Ok {
        assert(!netstate::naming::taken(net.socks, s.host, s.kind, name));
        assert forall|i: int|
            #![trigger net.socks[i]]
            0 <= i < MAX_SOCKETS && (net.socks[i].state == S_BOUND || net.socks[i].state
                == S_LISTENING) && net.socks[i].host == s.host && net.socks[i].kind == s.kind
                && net.socks[i].local.family == FAMILY_INET implies net.socks[i].local.port
            != name.port by {
            assert(!netstate::naming::holds(net.socks[i], s.host, s.kind, name));
        }
    }
    if netstate::naming::taken(net.socks, s.host, s.kind, addr) {
        let i = choose|i: int|
            0 <= i < net.socks.len() && netstate::naming::holds(
                #[trigger] net.socks[i],
                s.host,
                s.kind,
                addr,
            );
        assert(net.socks[i].local.port == addr.port);
    } else {
        assert forall|i: int|
            #![trigger net.socks[i]]
            0 <= i < MAX_SOCKETS && (net.socks[i].state == S_BOUND || net.socks[i].state
                == S_LISTENING) && net.socks[i].host == s.host && net.socks[i].kind == s.kind
                && net.socks[i].local.family == FAMILY_INET implies net.socks[i].local.port
            != addr.port by {
            assert(!netstate::naming::holds(net.socks[i], s.host, s.kind, addr));
        }
    }
    assert(Addr { port: addr.port, ..addr } == addr);
}

/// Addresses name hosts: the loopback ones the host itself, and the one after
/// the subnet's the first host, and so on; the rest of the subnet is nobody's.
pub proof fn addresses_name_hosts(net: NetView, from: u32, ip: u32)
    requires
        net.wf(),
    ensures
        0x7F00_0000 <= ip < 0x8000_0000 ==> net.host_at(from, ip) == Ok::<u32, bool>(from),
        forall|h: u32|
            h < net.hosts.len() && ip == SUBNET + h + 1 ==> net.hosts[h as int].addr == ip
                && #[trigger] host_is(net, from, ip, h),
        net.host_at(from, ip) is Ok && !(0x7F00_0000 <= ip < 0x8000_0000) ==> net.host_at(
            from,
            ip,
        ).unwrap() < net.hosts.len() && ip == net.hosts[net.host_at(from, ip).unwrap() as int].addr,
        net.host_at(from, ip) is Err && 0x0A00_0000 <= ip < 0x0A00_0100 ==> net.host_at(from, ip)
            == Err::<u32, bool>(true),
        net.host_at(from, ip) is Err && !(0x0A00_0000 <= ip < 0x0A00_0100) ==> net.host_at(from, ip)
            == Err::<u32, bool>(false),
{
    assert forall|h: u32| h < net.hosts.len() && ip == SUBNET + h + 1 implies net.hosts[h as int].addr
        == ip && #[trigger] host_is(net, from, ip, h) by {
        assert(net.hosts[h as int].addr == SUBNET + h + 1);
    }
    if let Ok(h) = net.host_at(from, ip) {
        if h < net.hosts.len() {
            assert(net.hosts[h as int].addr == SUBNET + h + 1);
        }
    }
}

/// The address is that host's.
pub open spec fn host_is(net: NetView, from: u32, ip: u32, h: u32) -> bool {
    net.host_at(from, ip) == Ok::<u32, bool>(h)
}

/// A datagram reaches the socket that is bound under the name it is sent to:
/// whole and with the sender's name, at once within a host, after the latency
/// between hosts. What nobody is bound to receive, or has no room for, is lost
/// without a word.
#[verifier::rlimit(40)]
pub proof fn a_datagram_reaches_its_receiver(
    net: NetView,
    sock: int,
    t: int,
    dest_host: u32,
    dest: Addr,
    data: Seq<u8>,
)
    requires
        net.wf(),
        0 <= sock < MAX_SOCKETS,
        0 <= t < MAX_SOCKETS,
        net.socks[sock].kind == KIND_DGRAM,
        net.socks[sock].state == S_BOUND,
        net.socks[sock].family == FAMILY_INET,
        dest.family == FAMILY_INET,
        data.len() <= netstate::MAX_DGRAM,
        net.socks[t].kind == KIND_DGRAM,
        net.socks[t].state == S_BOUND,
        net.socks[t].host == dest_host,
        net.socks[t].local.family == FAMILY_INET,
        net.socks[t].local.port == dest.port,
        !net.socks[t].has_peer,
        forall|i: int|
            0 <= i < MAX_SOCKETS && i != t && (#[trigger] net.socks[i]).kind == KIND_DGRAM
                && net.socks[i].state == S_BOUND && net.socks[i].host == dest_host
                && net.socks[i].local.family == FAMILY_INET ==> net.socks[i].local.port
                != dest.port,
    ensures
        ({
            let (after, r) = net.sent_dgram(sock, Some((dest_host, dest)), data);
            let s = net.socks[sock];
            let d = net.socks[t];
            let a = after.socks[t];
            let from = Addr {
                family: FAMILY_INET,
                ip: if 0x7F00_0000 <= dest.ip < 0x8000_0000 {
                    0x7F00_0001
                } else {
                    net.hosts[s.host as int].addr
                },
                ..s.local
            };
            let whole = netstate::datagram(from, data);
            let delay = if dest_host == s.host {
                0
            } else {
                net.latency_ns
            };
            &&& r == Ok::<usize, NetError>(data.len() as usize)
            &&& delay == 0 && d.flights.len() == 0 && d.rx.len() + whole.len() <= RING ==> a.rx
                == d.rx + whole
            &&& delay == 0 && d.flights.len() == 0 && d.rx.len() + whole.len() > RING ==> a.rx
                == d.rx
            &&& (delay != 0 || d.flights.len() > 0) && d.flight_len() + whole.len() + 2
                * FLIGHT_HEADER <= RING ==> a.rx == d.rx && a.flights == d.flights.push(
                Flight {
                    due: if net.now + delay > u64::MAX {
                        u64::MAX
                    } else {
                        (net.now + delay) as u64
                    },
                    kind: K_DGRAM,
                    body: whole,
                },
            )
        }),
{
    let s = net.socks[sock];
    assert(netstate::is_loopback(dest.ip) <==> 0x7F00_0000 <= dest.ip < 0x8000_0000);
    let from = net.source(sock, dest);
    assert(netstate::traffic::receives(net.socks[t], dest_host, dest, from));
    lemma_receiver(net.socks, 0, dest_host, dest, from);
    let found = netstate::traffic::receiver_from(net.socks, 0, dest_host, dest, from);
    assert(found == Some(t)) by {
        let k = found.unwrap();
        if k != t {
            assert(net.socks[k].local.port != dest.port);
        }
    }
    lemma_datagram_delivered(net, s.host, t, from, data);
    let (mid, taken) = net.delivered(s.host, t, PayloadView::Datagram { from, data });
    let (after, r) = net.sent_dgram(sock, Some((dest_host, dest)), data);
    assert(after == mid.dgram_lost(sock) || after == mid.dgram_gone());
    assert(after.socks[t].rx == mid.socks[t].rx && after.socks[t].flights == mid.socks[t].flights);
}

#[verifier::rlimit(40)]
proof fn lemma_datagram_delivered(net: NetView, host: u32, t: int, from: Addr, data: Seq<u8>)
    requires
        net.socks.len() == MAX_SOCKETS,
        0 <= t < MAX_SOCKETS,
    ensures
        ({
            let after = net.delivered(host, t, PayloadView::Datagram { from, data }).0;
            let d = net.socks[t];
            let a = after.socks[t];
            let whole = netstate::datagram(from, data);
            let delay = if d.host == host {
                0
            } else {
                net.latency_ns
            };
            &&& after.socks.len() == MAX_SOCKETS
            &&& delay == 0 && d.flights.len() == 0 && d.rx.len() + whole.len() <= RING ==> a.rx
                == d.rx + whole
            &&& delay == 0 && d.flights.len() == 0 && d.rx.len() + whole.len() > RING ==> a.rx
                == d.rx
            &&& (delay != 0 || d.flights.len() > 0) && d.flight_len() + whole.len() + 2
                * FLIGHT_HEADER <= RING ==> a.rx == d.rx && a.flights == d.flights.push(
                Flight {
                    due: if net.now + delay > u64::MAX {
                        u64::MAX
                    } else {
                        (net.now + delay) as u64
                    },
                    kind: K_DGRAM,
                    body: whole,
                },
            )
        }),
{
}

proof fn lemma_receiver(socks: Seq<SockView>, i: int, dest_host: u32, dest: Addr, from: Addr)
    requires
        0 <= i,
    ensures
        match netstate::traffic::receiver_from(socks, i, dest_host, dest, from) {
            Some(l) => i <= l < socks.len() && netstate::traffic::receives(
                socks[l],
                dest_host,
                dest,
                from,
            ),
            None => forall|k: int|
                i <= k < socks.len() ==> !netstate::traffic::receives(
                    #[trigger] socks[k],
                    dest_host,
                    dest,
                    from,
                ),
        },
    decreases socks.len() - i,
{
    if i < socks.len() {
        lemma_receiver(socks, i + 1, dest_host, dest, from);
    }
}

/// A datagram socket that is connected sends where it is connected to, one that
/// is not says that it needs a destination, and one too long is refused.
pub proof fn a_datagram_needs_a_destination(net: NetView, sock: int, data: Seq<u8>)
    requires
        net.wf(),
        0 <= sock < MAX_SOCKETS,
        net.socks[sock].state == S_BOUND,
    ensures
        data.len() > netstate::MAX_DGRAM ==> net.sent_dgram(sock, None, data) == (
            net,
            Err::<usize, NetError>(NetError::Errno(Errno::MsgSize)),
        ),
        data.len() <= netstate::MAX_DGRAM && !net.socks[sock].has_peer ==> net.sent_dgram(
            sock,
            None,
            data,
        ) == (net, Err::<usize, NetError>(NetError::Errno(Errno::DestAddrReq))),
        data.len() <= netstate::MAX_DGRAM && net.socks[sock].has_peer && net.socks[sock].family
            == FAMILY_INET && net.host_at(net.socks[sock].host, net.socks[sock].peer.ip) is Ok
            ==> net.sent_dgram(sock, None, data) == net.sent_dgram(
            sock,
            Some(
                (
                    net.host_at(net.socks[sock].host, net.socks[sock].peer.ip).unwrap(),
                    net.socks[sock].peer,
                ),
            ),
            data,
        ),
{
}

/// The last descriptor of a connected stream that is closed ends it: the peer
/// has the end, or has it on its way behind everything sent before, if there is
/// room for one, and can send nothing more. A socket with descriptors left
/// stays as it is.
#[verifier::rlimit(40)]
pub proof fn a_close_ends_the_stream(net: NetView, pid: u32, sock: u32, b: Seq<u8>)
    requires
        net.wf(),
        sock < MAX_SOCKETS,
        net.socks[sock as int].state == S_CONNECTED,
        net.socks[sock as int].kind != KIND_DGRAM,
        net.socks[sock as int].refs > 0,
        ({
            let far = net.socks[sock as int].far_end;
            let d = net.socks[far as int];
            &&& far != sock
            &&& d.state == S_CONNECTED
            &&& d.far_end == sock
            &&& d.flight_len() + FLIGHT_HEADER <= RING
        }),
    ensures
        ({
            let after = net.ref_dropped(pid, sock);
            let far = net.socks[sock as int].far_end as int;
            let d = net.socks[far];
            let a = after.socks[far];
            let left = net.socks[sock as int].refs - 1;
            &&& left > 0 ==> after.socks[sock as int].state == S_CONNECTED
                && after.socks[sock as int].refs == left && a == d
            &&& left == 0 ==> {
                &&& after.socks[sock as int].state == S_CLOSED
                &&& a.rx == d.rx
                &&& a.state == S_CONNECTED
                &&& a.fin || a.flights.len() == d.flights.len() + 1 && a.flights.drop_last()
                    == d.flights && a.flights.last().kind == K_FIN
                &&& after.sent(far, b).1 == Err::<usize, NetError>(NetError::Errno(Errno::Pipe))
            }
        }),
{
    reveal(SockView::wf);
    let s = net.socks[sock as int];
    assert(s.wf());
    let far = s.far_end as int;
    let d = net.socks[far];
    assert(d.wf());
    let counted = net.counted(
        pid,
        sock,
        netstate::refs::down(netstate::refs::held(net.fdrefs, pid, sock)),
    );
    assert(counted.socks == net.socks);
    let one = counted.with_refs(sock as int, netstate::refs::down(s.refs));
    assert(one.socks[far] == d);
    if s.refs == 1 {
        let x = one.delivered(s.host, far, PayloadView::Fin).0;
        assert(x.socks[sock as int].state == S_CONNECTED);
        let a = x.socks[far];
        if a.flights.len() > d.flights.len() {
            assert(a.flights.drop_last() =~= d.flights);
        }
        let after = net.ref_dropped(pid, sock);
        assert(after.socks[far] == a);
    }
}

/// A socket that is neither connected nor listens is gone with its last
/// descriptor.
pub proof fn a_closed_socket_is_free(net: NetView, pid: u32, sock: u32)
    requires
        net.wf(),
        sock < MAX_SOCKETS,
        net.socks[sock as int].state == S_NEW || net.socks[sock as int].state == S_BOUND,
        net.socks[sock as int].refs > 0,
    ensures
        net.socks[sock as int].refs == 1 ==> net.ref_dropped(pid, sock).socks[sock as int].state
            == S_FREE,
        net.socks[sock as int].refs > 1 ==> net.ref_dropped(pid, sock).socks[sock as int].state
            == net.socks[sock as int].state,
        net.ref_added(pid, sock).socks[sock as int].refs >= net.socks[sock as int].refs,
        net.socks[sock as int].refs < u32::MAX ==> net.ref_added(pid, sock).socks[sock as int].refs
            == net.socks[sock as int].refs + 1,
{
}

/// A socket with a name listens when asked to, under that name, for at least one
/// and at most 32 connections at a time.
pub proof fn a_bound_socket_listens(net: NetView, sock: int, backlog: i32)
    requires
        net.wf(),
        0 <= sock < MAX_SOCKETS,
    ensures
        ({
            let (after, r) = net.listening(sock, backlog);
            let s = net.socks[sock];
            let a = after.socks[sock];
            &&& s.state == S_BOUND || s.state == S_LISTENING ==> r == Ok::<(), NetError>(())
                && a.state == S_LISTENING && a.local == s.local && a.backlog == s.backlog && (if backlog
                < 1 {
                a.backlog_max == 1
            } else if backlog > 32 {
                a.backlog_max == 32
            } else {
                a.backlog_max == backlog
            })
            &&& s.state == S_CONNECTED || s.state == S_CLOSED ==> r == Err::<(), NetError>(
                NetError::Errno(Errno::Inval),
            ) && after == net
            &&& s.state == S_NEW && r is Ok ==> a.state == S_LISTENING && a.local.port
                >= FIRST_EPHEMERAL
        }),
{
}

/// A port is found as long as one of the ephemeral ones is free, and the one
/// that is found is.
pub proof fn a_free_port_is_found(net: NetView, host: u32, kind: u8, p: u16)
    requires
        net.wf(),
        host < net.hosts.len(),
        p >= FIRST_EPHEMERAL,
        net.hosts[host as int].next_port >= FIRST_EPHEMERAL,
        forall|i: int|
            0 <= i < MAX_SOCKETS && ((#[trigger] net.socks[i]).state == S_BOUND
                || net.socks[i].state == S_LISTENING) && net.socks[i].host == host
                && net.socks[i].kind == kind && net.socks[i].local.family == FAMILY_INET
                ==> net.socks[i].local.port != p,
    ensures
        net.with_port(host, kind).1 is Some,
        net.with_port(host, kind).1.unwrap() >= FIRST_EPHEMERAL,
        forall|i: int|
            0 <= i < MAX_SOCKETS && ((#[trigger] net.socks[i]).state == S_BOUND
                || net.socks[i].state == S_LISTENING) && net.socks[i].host == host
                && net.socks[i].kind == kind && net.socks[i].local.family == FAMILY_INET
                ==> net.socks[i].local.port != net.with_port(host, kind).1.unwrap(),
{
    let next = net.hosts[host as int].next_port;
    let k = if p >= next {
        p - next
    } else {
        p - next + 16384
    };
    assert(netstate::naming::port_after(next, k) == p);
    assert(!netstate::naming::taken(net.socks, host, kind, Addr::inet_name(0, p))) by {
        if netstate::naming::taken(net.socks, host, kind, Addr::inet_name(0, p)) {
            let i = choose|i: int|
                0 <= i < net.socks.len() && netstate::naming::holds(
                    #[trigger] net.socks[i],
                    host,
                    kind,
                    Addr::inet_name(0, p),
                );
            assert(net.socks[i].local.port == p);
        }
    }
    lemma_port_found(net.socks, next, host, kind, 0, k);
    let j = netstate::naming::free_port(net.socks, next, host, kind, 0).unwrap();
    let q = netstate::naming::port_after(next, j);
    assert forall|i: int|
        0 <= i < MAX_SOCKETS && ((#[trigger] net.socks[i]).state == S_BOUND || net.socks[i].state
            == S_LISTENING) && net.socks[i].host == host && net.socks[i].kind == kind
            && net.socks[i].local.family == FAMILY_INET implies net.socks[i].local.port != q by {
        assert(!netstate::naming::holds(net.socks[i], host, kind, Addr::inet_name(0, q)));
    }
}

proof fn lemma_port_found(
    socks: Seq<SockView>,
    next: u16,
    host: u32,
    kind: u8,
    from: int,
    k: int,
)
    requires
        0 <= from <= k < 16384,
        !netstate::naming::taken(
            socks,
            host,
            kind,
            Addr::inet_name(0, netstate::naming::port_after(next, k)),
        ),
    ensures
        netstate::naming::free_port(socks, next, host, kind, from) matches Some(j) && 0 <= j < 16384
            && !netstate::naming::taken(
            socks,
            host,
            kind,
            Addr::inet_name(0, netstate::naming::port_after(next, j)),
        ),
    decreases k - from,
{
    if from < k {
        lemma_port_found(socks, next, host, kind, from + 1, k);
    }
}

/// Where a connection is tried: an address of the run's network that is nobody's
/// cannot be reached, one outside it is the outside's, and any other is tried
/// on its host.
pub proof fn a_connection_is_tried_where_it_leads(net: NetView, sock: int, here: u32, dest: Addr)
    requires
        net.wf(),
        dest.family == FAMILY_INET,
    ensures
        ({
            let (after, r) = net.connected_from(sock, here, dest);
            match net.host_at(here, dest.ip) {
                Ok(h) => {
                    &&& after == net.connected(sock, h, dest).0
                    &&& net.connected(sock, h, dest).1 is Ok <==> r is Made
                },
                Err(inside) => {
                    &&& after == net
                    &&& inside <==> r == netstate::calls::Reached::Failed(
                        NetError::Errno(Errno::HostUnreach),
                    )
                    &&& !inside <==> r is Outside
                },
            }
        }),
{
}

/// When a send fails: without a connection, after the writing side was shut, and
/// where the peer is gone or reads no more; else it takes bytes or waits.
pub proof fn when_a_send_fails(net: NetView, sock: int, b: Seq<u8>)
    requires
        net.wf(),
        0 <= sock < MAX_SOCKETS,
        b.len() > 0,
    ensures
        ({
            let s = net.socks[sock];
            let p = net.socks[s.far_end as int];
            let r = net.sent(sock, b).1;
            &&& s.state != S_CONNECTED ==> r == Err::<usize, NetError>(
                NetError::Errno(Errno::NotConn),
            )
            &&& s.state == S_CONNECTED && (s.shut_wr || p.state != S_CONNECTED || p.shut_rd) ==> r
                == Err::<usize, NetError>(NetError::Errno(Errno::Pipe))
            &&& s.state == S_CONNECTED && !s.shut_wr && p.state == S_CONNECTED && !p.shut_rd ==> r
                is Ok || r == Err::<usize, NetError>(NetError::WouldBlock)
        }),
{
}

/// A side that is shut for reading reads nothing more, and its peer can send
/// nothing more; a shutdown needs a connection.
pub proof fn a_shut_side_reads_nothing(net: NetView, sock: int, b: Seq<u8>, room: int)
    requires
        net.wf(),
        0 <= sock < MAX_SOCKETS,
        b.len() > 0,
        room > 0,
    ensures
        ({
            let (after, r) = net.shut(sock, true, false);
            let s = net.socks[sock];
            let far = s.far_end as int;
            &&& s.state != S_CONNECTED ==> r == Err::<(), NetError>(NetError::Errno(Errno::NotConn))
                && after == net
            &&& s.state == S_CONNECTED ==> r == Ok::<(), NetError>(()) && after.received(
                sock,
                room,
                false,
            ).1 == Ok::<usize, NetError>(0)
            &&& s.state == S_CONNECTED && far != sock && net.socks[far].state == S_CONNECTED
                && net.socks[far].far_end == sock ==> after.sent(far, b).1 == Err::<
                usize,
                NetError,
            >(NetError::Errno(Errno::Pipe))
        }),
{
    reveal(SockView::wf);
    assert(net.socks[sock].wf());
}

/// The network counts what it does: connections that are made, datagrams that
/// are sent and those that are lost.
pub proof fn what_happens_is_counted(
    net: NetView,
    sock: int,
    dest_host: u32,
    dest: Addr,
    data: Seq<u8>,
)
    requires
        net.wf(),
        0 <= sock < MAX_SOCKETS,
        net.socks[sock].state == S_BOUND,
        dest_host < net.hosts.len(),
    ensures
        net.connected(sock, dest_host, dest).1 is Ok ==> net.connected(
            sock,
            dest_host,
            dest,
        ).0.connections == net.connections.wrapping_add(1),
        net.connected(sock, dest_host, dest).1 is Err ==> net.connected(
            sock,
            dest_host,
            dest,
        ).0.connections == net.connections,
        net.sent_dgram(sock, Some((dest_host, dest)), data).1 is Ok ==> net.sent_dgram(
            sock,
            Some((dest_host, dest)),
            data,
        ).0.datagrams == net.datagrams.wrapping_add(1),
        net.sent_dgram(sock, Some((dest_host, dest)), data).1 is Ok && (forall|i: int|
            0 <= i < MAX_SOCKETS ==> !((#[trigger] net.socks[i]).kind == KIND_DGRAM
                && net.socks[i].state == S_BOUND && net.socks[i].host == dest_host
                && net.socks[i].local.family == dest.family)) ==> net.sent_dgram(
            sock,
            Some((dest_host, dest)),
            data,
        ).0.dropped == net.dropped.wrapping_add(1),
{
    let from = net.source(sock, dest);
    lemma_receiver(net.socks, 0, dest_host, dest, from);
}

} // verus!
