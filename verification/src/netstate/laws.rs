//! What the virtual network promises its guests.

use vstd::prelude::*;
use super::naming;
use super::traffic;
use super::traffic::PayloadView;
use super::{
    Addr, Flight, NetError, NetView, SockView, KIND_DGRAM, K_BYTES, K_DGRAM, K_FIN, MAX_SOCKETS,
    S_BOUND, S_LISTENING,
};
use crate::netstate;

verus! {

/// The stream bytes of flights, in order
pub open spec fn streamed(q: Seq<Flight>) -> Seq<u8>
    decreases q.len(),
{
    if q.len() == 0 {
        Seq::empty()
    } else if q[0].kind == K_BYTES {
        q[0].body + streamed(q.skip(1))
    } else {
        streamed(q.skip(1))
    }
}

/// What a stream socket will read: what has arrived, and what is on its way
pub open spec fn coming(s: SockView) -> Seq<u8> {
    s.rx + streamed(s.flights)
}

proof fn lemma_streamed_push(q: Seq<Flight>, f: Flight)
    ensures
        streamed(q.push(f)) == streamed(q) + (if f.kind == K_BYTES {
            f.body
        } else {
            Seq::empty()
        }),
    decreases q.len(),
{
    reveal_with_fuel(streamed, 2);
    if q.len() == 0 {
        assert(q.push(f).skip(1) =~= Seq::<Flight>::empty());
    } else {
        assert(q.push(f).skip(1) =~= q.skip(1).push(f));
        lemma_streamed_push(q.skip(1), f);
    }
    assert(streamed(q.push(f)) =~= streamed(q) + (if f.kind == K_BYTES {
        f.body
    } else {
        Seq::empty()
    }));
}

/// What `send` takes goes behind everything that the peer will read, and
/// nothing else changes what any socket will read.
pub proof fn what_is_sent_comes_last(net: NetView, sock: int, b: Seq<u8>)
    requires
        net.wf(),
        0 <= sock < MAX_SOCKETS,
    ensures
        ({
            let (after, r) = net.sent(sock, b);
            let far = net.socks[sock].far_end as int;
            &&& r matches Ok(n) ==> n <= b.len() && (b.len() > 0 ==> n > 0 && coming(
                after.socks[far],
            ) == coming(net.socks[far]) + b.take(n as int))
            &&& r matches Err(e) ==> forall|i: int|
                0 <= i < MAX_SOCKETS ==> coming(#[trigger] after.socks[i]) == coming(net.socks[i])
            &&& forall|i: int|
                0 <= i < MAX_SOCKETS && i != far ==> (#[trigger] after.socks[i]) == net.socks[i]
        }),
{
    let s = net.socks[sock];
    let far = s.far_end as int;
    netstate::lemma_sock(s);
    if s.state == netstate::S_CONNECTED && b.len() > 0 {
        let d = net.socks[far];
        netstate::lemma_sock(d);
        let p = PayloadView::Bytes(b);
        let (after, taken) = net.delivered(s.host, far, p);
        assert(b.take(0) =~= Seq::<u8>::empty());
        if d.flights.len() == 0 {
            assert(streamed(d.flights) =~= Seq::<u8>::empty());
            assert(d.rx + b.take(taken) + streamed(d.flights) =~= d.rx + streamed(d.flights)
                + b.take(taken));
        }
        reveal(SockView::wf);
        netstate::lemma_stream_positive(d.flights);
        assert forall|due: u64| (#[trigger] d.flight_of(due, p)) is Some implies coming(
            d.with_flight(d.flight_of(due, p)->Some_0.0),
        ) == coming(d) + b.take(d.flight_of(due, p)->Some_0.1) by {
            let f = d.flight_of(due, p)->Some_0.0;
            let n = d.flight_of(due, p)->Some_0.1;
            lemma_streamed_push(d.flights, f);
            assert(coming(d.with_flight(f)) =~= coming(d) + b.take(n));
        }
        assert(coming(d) + b.take(0) =~= coming(d));
    }
}

/// What `recv` takes is the front of what the socket will read, and the
/// rest stays.
pub proof fn what_comes_first_is_read_first(net: NetView, sock: int, room: int)
    requires
        net.wf(),
        0 <= sock < MAX_SOCKETS,
        0 <= room,
    ensures
        ({
            let (after, r) = net.received(sock, room, false);
            let s = net.socks[sock];
            match r {
                Ok(n) => {
                    &&& n <= s.rx.len()
                    &&& s.rx.take(n as int) == coming(s).take(n as int)
                    &&& coming(after.socks[sock]) == coming(s).skip(n as int)
                },
                Err(_) => after == net,
            }
        }),
{
    let s = net.socks[sock];
    netstate::lemma_sock(s);
    let (after, r) = net.received(sock, room, false);
    if let Ok(n) = r {
        assert(s.rx.take(n as int) =~= coming(s).take(n as int));
        assert(coming(after.socks[sock]) =~= coming(s).skip(n as int));
    }
}

/// The passing of time only moves stream bytes closer: no stream socket
/// will read anything else for it.
pub proof fn time_loses_no_stream_bytes(net: NetView, now: u64, i: int)
    requires
        net.wf(),
        0 <= i < MAX_SOCKETS,
        net.socks[i].kind != KIND_DGRAM,
    ensures
        coming(net.advanced(now).0.socks[i]) == coming(net.socks[i]),
{
    let start = NetView { now, ..net };
    assert(flights_wf(net.socks[i])) by {
        reveal(SockView::wf);
    }
    lemma_settled(start, now, 0, i);
}

/// Nothing arrives before it is due, and once the clock has moved nothing
/// that is due waits.
pub proof fn what_arrives_is_due(net: NetView, now: u64, i: int)
    requires
        net.wf(),
        0 <= i < MAX_SOCKETS,
        net.in_flight > 0,
        net.due <= now,
    ensures
        ({
            let before = net.socks[i];
            let after = net.advanced(now).0.socks[i];
            &&& after.flights.len() > 0 ==> after.flights[0].due > now
            &&& (before.flights.len() == 0 || before.flights[0].due > now) ==> after == before
        }),
{
    let start = NetView { now, ..net };
    assert(flights_wf(net.socks[i])) by {
        reveal(SockView::wf);
    }
    lemma_settled(start, now, 0, i);
}

spec fn flights_wf(s: SockView) -> bool {
    forall|k: int|
        0 <= k < s.flights.len() ==> (#[trigger] s.flights[k]).wf() && (s.flights[k].kind == K_DGRAM
            ==> s.kind == KIND_DGRAM)
}

proof fn lemma_settled(net: NetView, now: u64, from: int, i: int)
    requires
        0 <= from,
        0 <= i < MAX_SOCKETS,
        net.socks.len() == MAX_SOCKETS,
        flights_wf(net.socks[i]),
    ensures
        ({
            let before = net.socks[i];
            let after = net.settled(now, from).socks[i];
            &&& net.settled(now, from).socks.len() == MAX_SOCKETS
            &&& net.socks[i].kind != KIND_DGRAM ==> coming(after) == coming(before)
            &&& from <= i && after.flights.len() > 0 ==> after.flights[0].due > now
            &&& (before.flights.len() == 0 || before.flights[0].due > now) ==> after == before
            &&& from > i ==> after == before
        }),
    decreases
            (if from < MAX_SOCKETS {
                MAX_SOCKETS - from
            } else {
                0
            }),
            net.socks[from].flights.len(),
{
    if from < MAX_SOCKETS {
        let s = net.socks[from];
        if s.flights.len() == 0 || s.flights[0].due > now {
            lemma_settled(net, now, from + 1, i);
        } else {
            let next = net.landed(from);
            if from == i {
                let t = next.socks[i];
                assert forall|k: int| 0 <= k < t.flights.len() implies (#[trigger] t.flights[k]).wf()
                    && (t.flights[k].kind == K_DGRAM ==> t.kind == KIND_DGRAM) by {
                    assert(t.flights[k] == s.flights[k + 1]);
                }
                assert(s.flights[0].wf());
                if s.kind != KIND_DGRAM {
                    assert(coming(t) =~= coming(s));
                }
            }
            lemma_settled(next, now, from, i);
        }
    }
}

/// No two sockets of a kind hold the same name on one host.
pub open spec fn names_unique(socks: Seq<SockView>) -> bool {
    forall|i: int, j: int|
        #![trigger socks[i], socks[j]]
        0 <= i < socks.len() && 0 <= j < socks.len() && i != j && named(socks[i]) && named(socks[j])
            && socks[i].host == socks[j].host && socks[i].kind == socks[j].kind
            ==> !socks[i].local.names_same(socks[j].local)
}

pub open spec fn named(s: SockView) -> bool {
    s.state == S_BOUND || s.state == S_LISTENING
}

/// Binding and listening never give a name on a host to a second socket of
/// the kind.
pub proof fn names_stay_unique(net: NetView, sock: int, addr: Addr, backlog: i32)
    requires
        net.wf(),
        0 <= sock < MAX_SOCKETS,
        names_unique(net.socks),
    ensures
        names_unique(net.bound(sock, addr).0.socks),
        names_unique(net.listening(sock, backlog).0.socks),
{
    lemma_bound_unique(net, sock, addr);
    lemma_bound_unique(net, sock, Addr::inet_name(0, 0));
}

proof fn lemma_bound_unique(net: NetView, sock: int, addr: Addr)
    requires
        0 <= sock < net.socks.len(),
        names_unique(net.socks),
    ensures
        names_unique(net.bound(sock, addr).0.socks),
{
    let s = net.socks[sock];
    let after = net.bound(sock, addr).0.socks;
    if after != net.socks {
        let name = after[sock].local;
        assert(!naming::taken(net.socks, s.host, s.kind, name));
        assert forall|i: int, j: int|
            #![trigger after[i], after[j]]
            0 <= i < after.len() && 0 <= j < after.len() && i != j && named(after[i]) && named(
                after[j],
            ) && after[i].host == after[j].host && after[i].kind == after[j].kind implies !after[i].local.names_same(
        after[j].local) by {
            if i == sock {
                assert(!naming::holds(net.socks[j], s.host, s.kind, name));
            } else if j == sock {
                assert(!naming::holds(net.socks[i], s.host, s.kind, name));
            } else {
                assert(after[i] == net.socks[i] && after[j] == net.socks[j]);
            }
        }
    }
}

} // verus!
