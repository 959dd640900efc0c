//! What the processes hold of the virtual sockets, over several calls

use vstd::prelude::*;
use super::refs::{held, one_each, slot};
use super::traffic::PayloadView;
use super::{FdRef, NetView, SockView, MAX_SOCKETS, S_CLOSED, S_CONNECTED, S_FREE, S_LISTENING};
use crate::netstate;

verus! {

/// How often `sock` is among the first `n` of `list`
pub open spec fn occurs(list: Seq<u32>, sock: int, n: int) -> int
    decreases n,
{
    if n <= 0 {
        0
    } else {
        occurs(list, sock, n - 1) + (if list[n - 1] == sock {
            1int
        } else {
            0
        })
    }
}

proof fn lemma_occurs(list: Seq<u32>, sock: int, n: int)
    ensures
        0 <= occurs(list, sock, n),
        n >= 0 ==> occurs(list, sock, n) <= n,
    decreases n,
{
    if n > 0 {
        lemma_occurs(list, sock, n - 1);
    }
}

/// Another count of one pair is found again, and changes no other.
proof fn lemma_counted(refs: Seq<FdRef>, pid: u32, sock: u32, count: u32)
    requires
        one_each(refs),
        slot(refs, pid, sock) is Some,
    ensures
        ({
            let i = slot(refs, pid, sock).unwrap();
            let after = refs.update(i, FdRef { pid, sock, count });
            &&& 0 <= i < refs.len()
            &&& one_each(after)
            &&& held(after, pid, sock) == count
            &&& forall|p: u32, s: u32|
                p != pid || s != sock ==> #[trigger] held(after, p, s) == held(refs, p, s)
        }),
{
    netstate::refs::lemma_one_each(refs, pid, sock, count);
    netstate::refs::lemma_ref_from(refs, pid, sock, 0);
    netstate::refs::lemma_spare_from(refs, 0);
    let i = slot(refs, pid, sock).unwrap();
    let after = refs.update(i, FdRef { pid, sock, count });
    netstate::refs::lemma_ref_from(after, pid, sock, 0);
    assert(after[i] == FdRef { pid, sock, count });
    assert forall|p: u32, s: u32| p != pid || s != sock implies #[trigger] held(after, p, s) == held(
        refs,
        p,
        s,
    ) by {
        netstate::refs::lemma_ref_from(refs, p, s, 0);
        netstate::refs::lemma_ref_from(after, p, s, 0);
        if let Some(k) = netstate::refs::ref_from(refs, p, s, 0) {
            assert(after[k] == refs[k]);
        }
        if let Some(k) = netstate::refs::ref_from(after, p, s, 0) {
            assert(after[k] == refs[k]);
        }
    }
}

/// A held socket has a record.
proof fn lemma_recorded(refs: Seq<FdRef>, pid: u32, sock: u32)
    requires
        held(refs, pid, sock) > 0,
    ensures
        slot(refs, pid, sock) is Some,
{
}

/// Whether the networks differ at most in what is held
pub open spec fn like(a: NetView, b: NetView) -> bool {
    &&& b == (NetView { fdrefs: b.fdrefs, socks: b.socks, ..a })
    &&& b.fdrefs.len() == a.fdrefs.len()
    &&& b.socks.len() == a.socks.len()
    &&& forall|t: int|
        0 <= t < a.socks.len() ==> (#[trigger] b.socks[t]) == (SockView {
            refs: b.socks[t].refs,
            ..a.socks[t]
        })
}

/// Whether the counts can grow by `n`
pub open spec fn countable(net: NetView, pid: u32, n: int) -> bool {
    forall|s: int|
        0 <= s < MAX_SOCKETS ==> (#[trigger] net.socks[s]).refs + n <= u32::MAX && held(
            net.fdrefs,
            pid,
            s as u32,
        ) + n <= u32::MAX
}

/// Whether each of `list` is a socket for which there is a record when its
/// turn comes
pub open spec fn has_room(net: NetView, pid: u32, list: Seq<u32>) -> bool {
    forall|i: int|
        0 <= i < list.len() ==> (#[trigger] list[i]) < MAX_SOCKETS && net.refs_added(
            pid,
            list,
            i,
        ).can_add(pid, list[i])
}

proof fn lemma_added(net: NetView, pid: u32, list: Seq<u32>, n: int)
    requires
        one_each(net.fdrefs),
        net.socks.len() == MAX_SOCKETS,
        has_room(net, pid, list),
        countable(net, pid, list.len() as int),
        0 <= n <= list.len(),
    ensures
        ({
            let a = net.refs_added(pid, list, n);
            &&& one_each(a.fdrefs)
            &&& like(net, a)
            &&& forall|s: int|
                0 <= s < MAX_SOCKETS ==> (#[trigger] a.socks[s]).refs == net.socks[s].refs + occurs(
                    list,
                    s,
                    n,
                ) && held(a.fdrefs, pid, s as u32) == held(net.fdrefs, pid, s as u32) + occurs(
                    list,
                    s,
                    n,
                )
            &&& forall|p: u32, s: u32|
                p != pid || s >= MAX_SOCKETS ==> #[trigger] held(a.fdrefs, p, s) == held(
                    net.fdrefs,
                    p,
                    s,
                )
        }),
    decreases n,
{
    if n > 0 {
        lemma_added(net, pid, list, n - 1);
        let b = net.refs_added(pid, list, n - 1);
        let a = net.refs_added(pid, list, n);
        let sock = list[n - 1];
        assert(b.can_add(pid, sock));
        lemma_occurs(list, sock as int, n - 1);
        assert(net.socks[sock as int].refs + list.len() <= u32::MAX);
        assert(b.socks[sock as int].refs < u32::MAX);
        lemma_counted(
            b.fdrefs,
            pid,
            sock,
            netstate::refs::up(held(b.fdrefs, pid, sock)),
        );
        assert forall|s: int| 0 <= s < MAX_SOCKETS implies (#[trigger] a.socks[s]).refs
            == net.socks[s].refs + occurs(list, s, n) && held(a.fdrefs, pid, s as u32) == held(
            net.fdrefs,
            pid,
            s as u32,
        ) + occurs(list, s, n) by {
            assert(b.socks[s].refs == net.socks[s].refs + occurs(list, s, n - 1));
        }
        assert forall|t: int| 0 <= t < net.socks.len() implies (#[trigger] a.socks[t]) == (SockView {
            refs: a.socks[t].refs,
            ..net.socks[t]
        }) by {
            assert(b.socks[t] == (SockView { refs: b.socks[t].refs, ..net.socks[t] }));
        }
    }
}

/// What a socket keeps when others go: its count, its queue, its far end,
/// what it has received, and what is on its way to it
pub open spec fn keeps(a: SockView, b: SockView) -> bool {
    &&& b.refs == a.refs
    &&& b.backlog == a.backlog
    &&& b.far_end == a.far_end
    &&& b.rx == a.rx
    &&& a.flights.is_prefix_of(b.flights)
}

pub open spec fn ended(state: u8) -> bool {
    state == S_FREE || state == S_CLOSED
}

/// Whether `t` is queued on `s`
pub open spec fn queued_on(net: NetView, t: int, s: int) -> bool {
    net.socks[s].backlog.contains(t as u32)
}

spec fn in_range(net: NetView) -> bool {
    &&& net.socks.len() == MAX_SOCKETS
    &&& net.idents.len() == MAX_SOCKETS
    &&& forall|s: int, k: int|
        0 <= s < MAX_SOCKETS && 0 <= k < net.socks[s].backlog.len() ==> (
        #[trigger] net.socks[s].backlog[k]) < MAX_SOCKETS
}

/// Whether all sockets of `a` keep what they have in `b`, and nothing but
/// sockets, names and totals differs
spec fn all_keep(a: NetView, b: NetView) -> bool {
    &&& b.fdrefs == a.fdrefs
    &&& b.idents.len() == a.idents.len()
    &&& b.socks.len() == a.socks.len()
    &&& forall|t: int| 0 <= t < a.socks.len() ==> keeps(a.socks[t], #[trigger] b.socks[t])
    &&& forall|t: int|
        0 <= t < a.socks.len() ==> (#[trigger] b.socks[t]).state == a.socks[t].state || ended(
            b.socks[t].state,
        )
}

proof fn lemma_all_keep(a: NetView, b: NetView, c: NetView)
    requires
        all_keep(a, b),
        all_keep(b, c),
    ensures
        all_keep(a, c),
{
    assert forall|t: int| 0 <= t < a.socks.len() implies keeps(a.socks[t], #[trigger] c.socks[t]) by {
        assert(keeps(a.socks[t], b.socks[t]));
        assert(keeps(b.socks[t], c.socks[t]));
        let (x, y, z) = (a.socks[t].flights, b.socks[t].flights, c.socks[t].flights);
        assert(x =~= z.subrange(0, x.len() as int)) by {
            assert(x == y.subrange(0, x.len() as int));
            assert(y == z.subrange(0, y.len() as int));
        }
    }
    assert forall|t: int| 0 <= t < a.socks.len() implies (#[trigger] c.socks[t]).state
        == a.socks[t].state || ended(c.socks[t].state) by {
        assert(b.socks[t].state == a.socks[t].state || ended(b.socks[t].state));
    }
}

proof fn lemma_fin(net: NetView, host: u32, near: int)
    requires
        in_range(net),
        0 <= near < MAX_SOCKETS,
    ensures
        ({
            let a = net.delivered(host, near, PayloadView::Fin).0;
            &&& all_keep(net, a)
            &&& a.idents == net.idents
            &&& forall|t: int|
                0 <= t < MAX_SOCKETS ==> (#[trigger] a.socks[t]).state == net.socks[t].state
        }),
{
    let a = net.delivered(host, near, PayloadView::Fin).0;
    assert forall|t: int| 0 <= t < net.socks.len() implies keeps(
        net.socks[t],
        #[trigger] a.socks[t],
    ) && a.socks[t].state == net.socks[t].state by {
        let x = net.socks[t].flights;
        let y = a.socks[t].flights;
        assert(y == x || y == x.push(y.last()));
        assert(x =~= y.subrange(0, x.len() as int));
    }
}

proof fn lemma_parted(net: NetView, far: int)
    requires
        in_range(net),
        0 <= far < MAX_SOCKETS,
    ensures
        ({
            let a = net.parted(far);
            &&& all_keep(net, a)
            &&& a.idents == net.idents
            &&& forall|t: int|
                0 <= t < MAX_SOCKETS && t != far && net.socks[t].state != S_CLOSED ==> (
                #[trigger] a.socks[t]).state == net.socks[t].state
            &&& net.socks[far].far_end < MAX_SOCKETS ==> ended(a.socks[far].state)
        }),
{
    let near = net.socks[far].far_end as int;
    if near < MAX_SOCKETS {
        if net.socks[near].state == S_CLOSED {
            let a = net.parted(far);
            assert forall|t: int| 0 <= t < net.socks.len() implies keeps(
                net.socks[t],
                #[trigger] a.socks[t],
            ) by {
                let x = net.socks[t].flights;
                assert(x =~= x.subrange(0, x.len() as int));
            }
        } else {
            lemma_fin(net, net.socks[far].host, near);
            let mid = net.delivered(net.socks[far].host, near, PayloadView::Fin).0;
            let a = net.parted(far);
            assert forall|t: int| 0 <= t < net.socks.len() implies keeps(
                net.socks[t],
                #[trigger] a.socks[t],
            ) && (t != far ==> a.socks[t].state == net.socks[t].state) by {
                assert(keeps(net.socks[t], mid.socks[t]));
                assert(mid.socks[t].state == net.socks[t].state);
            }
        }
    } else {
        lemma_same(net);
    }
}

proof fn lemma_same(net: NetView)
    ensures
        all_keep(net, net),
{
    assert forall|t: int| 0 <= t < net.socks.len() implies keeps(
        net.socks[t],
        #[trigger] net.socks[t],
    ) by {
        let x = net.socks[t].flights;
        assert(x =~= x.subrange(0, x.len() as int));
    }
}

proof fn lemma_reset(net: NetView, queued: Seq<u32>, n: int)
    requires
        in_range(net),
        0 <= n <= queued.len(),
        forall|k: int| 0 <= k < queued.len() ==> (#[trigger] queued[k]) < MAX_SOCKETS,
    ensures
        ({
            let a = net.reset(queued, n);
            &&& all_keep(net, a)
            &&& in_range(a)
            &&& a.idents == net.idents
            &&& forall|t: int|
                0 <= t < MAX_SOCKETS && !queued.contains(t as u32) && net.socks[t].state
                    != S_CLOSED ==> (#[trigger] a.socks[t]).state == net.socks[t].state
        }),
    decreases n,
{
    if n <= 0 {
        lemma_same(net);
    } else {
        lemma_reset(net, queued, n - 1);
        let b = net.reset(queued, n - 1);
        let far = queued[n - 1] as int;
        lemma_parted(b, far);
        let a = net.reset(queued, n);
        lemma_all_keep(net, b, a);
        lemma_in_range(b, a);
        assert forall|t: int|
            0 <= t < MAX_SOCKETS && !queued.contains(t as u32) && net.socks[t].state
                != S_CLOSED implies (#[trigger] a.socks[t]).state == net.socks[t].state by {
            assert(queued.contains(queued[n - 1]));
            assert(b.socks[t].state == net.socks[t].state);
        }
    }
}

proof fn lemma_in_range(a: NetView, b: NetView)
    requires
        in_range(a),
        all_keep(a, b),
    ensures
        in_range(b),
{
    assert forall|s: int, k: int|
        0 <= s < MAX_SOCKETS && 0 <= k < b.socks[s].backlog.len() implies (
    #[trigger] b.socks[s].backlog[k]) < MAX_SOCKETS by {
        assert(keeps(a.socks[s], b.socks[s]));
        assert(a.socks[s].backlog[k] < MAX_SOCKETS);
    }
}

/// What the release of one socket does to it and to the others
proof fn lemma_released(net: NetView, sock: int)
    requires
        in_range(net),
        0 <= sock < MAX_SOCKETS,
    ensures
        ({
            let a = net.released(sock);
            &&& all_keep(net, a)
            &&& a.idents == net.idents.update(sock, 0)
            &&& forall|t: int|
                0 <= t < MAX_SOCKETS && t != sock && net.socks[t].state != S_CLOSED && !queued_on(
                    net,
                    t,
                    sock,
                ) ==> (#[trigger] a.socks[t]).state == net.socks[t].state
            &&& (net.socks[sock].state == S_CONNECTED ==> net.socks[sock].far_end < MAX_SOCKETS)
                ==> ended(a.socks[sock].state)
        }),
{
    let s = net.socks[sock];
    let a = net.released(sock);
    if s.state == S_LISTENING {
        lemma_reset(net, s.backlog, s.backlog.len() as int);
        let b = net.reset(s.backlog, s.backlog.len() as int);
        assert forall|t: int| 0 <= t < net.socks.len() implies keeps(
            net.socks[t],
            #[trigger] a.socks[t],
        ) && (t != sock ==> a.socks[t].state == b.socks[t].state) by {
            assert(keeps(net.socks[t], b.socks[t]));
        }
    } else if s.state == S_CONNECTED {
        lemma_parted(net, sock);
        let b = net.parted(sock);
        assert(a.socks == b.socks);
    } else {
        assert forall|t: int| 0 <= t < net.socks.len() implies keeps(
            net.socks[t],
            #[trigger] a.socks[t],
        ) by {
            let x = net.socks[t].flights;
            assert(x =~= x.subrange(0, x.len() as int));
        }
    }
}

/// What is left of a count after `k` fewer, and none where there are not so
/// many
pub open spec fn less(n: u32, k: int) -> int {
    if n > k {
        n - k
    } else {
        0
    }
}

/// What closing `k` descriptors does to the records
#[verifier::opaque]
spec fn records_less(net: NetView, a: NetView, pid: u32, sock: u32, k: int) -> bool {
    &&& one_each(a.fdrefs)
    &&& a.fdrefs.len() == net.fdrefs.len()
    &&& held(a.fdrefs, pid, sock) == held(net.fdrefs, pid, sock) - k
    &&& forall|p: u32, t: u32|
        p != pid || t != sock ==> #[trigger] held(a.fdrefs, p, t) == held(net.fdrefs, p, t)
}

/// Whether closing `k` descriptors closes the socket
pub open spec fn goes(net: NetView, s: int, k: int) -> bool {
    k > 0 && net.socks[s].refs <= k
}

/// What it does to the sockets' contents and names
#[verifier::opaque]
spec fn contents_stay(net: NetView, a: NetView, s: int, k: int) -> bool {
    &&& in_range(a)
    &&& forall|t: int|
        0 <= t < MAX_SOCKETS ==> keeps(
            SockView { refs: (#[trigger] a.socks[t]).refs, ..net.socks[t] },
            a.socks[t],
        )
    &&& forall|t: int|
        0 <= t < MAX_SOCKETS ==> (#[trigger] a.socks[t]).refs == (if t == s {
            less(net.socks[t].refs, k)
        } else {
            net.socks[t].refs as int
        })
    &&& a.idents == (if goes(net, s, k) {
        net.idents.update(s, 0)
    } else {
        net.idents
    })
}

/// What it does to the sockets' states
#[verifier::opaque]
spec fn states_stay(net: NetView, a: NetView, s: int, k: int) -> bool {
    &&& forall|t: int|
        0 <= t < MAX_SOCKETS && (t == s ==> !goes(net, s, k)) && net.socks[t].state != S_CLOSED && (
        goes(net, s, k) ==> !queued_on(net, t, s)) ==> (#[trigger] a.socks[t]).state
            == net.socks[t].state
    &&& forall|t: int|
        0 <= t < MAX_SOCKETS ==> (#[trigger] a.socks[t]).state == net.socks[t].state || ended(
            a.socks[t].state,
        )
    &&& goes(net, s, k) && (net.socks[s].state == S_CONNECTED ==> net.socks[s].far_end
        < MAX_SOCKETS) ==> ended(a.socks[s].state)
    &&& !goes(net, s, k) ==> like(net, a)
}

/// `pid` has closed one descriptor of those it has for `sock`.
proof fn lemma_dropped(net: NetView, pid: u32, sock: u32)
    requires
        one_each(net.fdrefs),
        in_range(net),
        sock < MAX_SOCKETS,
        held(net.fdrefs, pid, sock) > 0,
    ensures
        records_less(net, net.ref_dropped(pid, sock), pid, sock, 1),
        contents_stay(net, net.ref_dropped(pid, sock), sock as int, 1),
        states_stay(net, net.ref_dropped(pid, sock), sock as int, 1),
{
    reveal(records_less);
    reveal(contents_stay);
    reveal(states_stay);
    let s = sock as int;
    let count = netstate::refs::down(held(net.fdrefs, pid, sock));
    lemma_recorded(net.fdrefs, pid, sock);
    lemma_counted(net.fdrefs, pid, sock, count);
    let refs = netstate::refs::down(net.socks[s].refs);
    let mid = net.counted(pid, sock, count).with_refs(s, refs);
    let plain = net.with_refs(s, refs);
    assert(mid.socks == plain.socks);
    assert(in_range(mid)) by {
        assert forall|x: int, k: int|
            0 <= x < MAX_SOCKETS && 0 <= k < mid.socks[x].backlog.len() implies (
        #[trigger] mid.socks[x].backlog[k]) < MAX_SOCKETS by {
            assert(net.socks[x].backlog[k] < MAX_SOCKETS);
        }
    }
    let a = net.ref_dropped(pid, sock);
    if refs == 0 {
        lemma_released(mid, s);
        lemma_in_range(mid, a);
        assert forall|t: int| 0 <= t < MAX_SOCKETS implies keeps(
            SockView { refs: (#[trigger] a.socks[t]).refs, ..net.socks[t] },
            a.socks[t],
        ) && a.socks[t].refs == mid.socks[t].refs && (a.socks[t].state == net.socks[t].state
            || ended(a.socks[t].state)) by {
            assert(keeps(mid.socks[t], a.socks[t]));
        }
        assert forall|t: int|
            0 <= t < MAX_SOCKETS && t != s && net.socks[t].state != S_CLOSED && !queued_on(
                net,
                t,
                s,
            ) implies (#[trigger] a.socks[t]).state == net.socks[t].state by {
            assert(!queued_on(mid, t, s));
        }
    } else {
        assert forall|t: int| 0 <= t < MAX_SOCKETS implies keeps(
            SockView { refs: (#[trigger] a.socks[t]).refs, ..net.socks[t] },
            a.socks[t],
        ) by {
            let x = net.socks[t].flights;
            assert(x =~= x.subrange(0, x.len() as int));
        }
    }
}

/// `pid` has closed `k` of the descriptors that it has for `sock`.
proof fn lemma_drops(net: NetView, pid: u32, sock: u32, k: int)
    requires
        one_each(net.fdrefs),
        in_range(net),
        sock < MAX_SOCKETS,
        0 <= k <= held(net.fdrefs, pid, sock),
    ensures
        records_less(net, net.refs_dropped(pid, sock, k), pid, sock, k),
        contents_stay(net, net.refs_dropped(pid, sock, k), sock as int, k),
        states_stay(net, net.refs_dropped(pid, sock, k), sock as int, k),
    decreases k,
{
    let s = sock as int;
    if k == 0 {
        reveal(records_less);
        reveal(contents_stay);
        reveal(states_stay);
        lemma_same(net);
        assert forall|t: int| 0 <= t < MAX_SOCKETS implies keeps(
            SockView { refs: (#[trigger] net.socks[t]).refs, ..net.socks[t] },
            net.socks[t],
        ) by {}
    } else {
        lemma_drops(net, pid, sock, k - 1);
        let b = net.refs_dropped(pid, sock, k - 1);
        let a = net.refs_dropped(pid, sock, k);
        assert(one_each(b.fdrefs) && held(b.fdrefs, pid, sock) > 0) by {
            reveal(records_less);
        }
        assert(in_range(b)) by {
            reveal(contents_stay);
        }
        lemma_dropped(b, pid, sock);
        assert(records_less(net, a, pid, sock, k)) by {
            reveal(records_less);
        }
        lemma_contents_twice(net, b, a, s, k);
        lemma_states_twice(net, b, a, s, k);
    }
}

proof fn lemma_contents_twice(net: NetView, b: NetView, a: NetView, s: int, k: int)
    requires
        in_range(net),
        0 <= s < MAX_SOCKETS,
        k > 0,
        contents_stay(net, b, s, k - 1),
        contents_stay(b, a, s, 1),
    ensures
        contents_stay(net, a, s, k),
{
    reveal(contents_stay);
    assert forall|t: int| 0 <= t < MAX_SOCKETS implies keeps(
        SockView { refs: (#[trigger] a.socks[t]).refs, ..net.socks[t] },
        a.socks[t],
    ) by {
        assert(keeps(SockView { refs: b.socks[t].refs, ..net.socks[t] }, b.socks[t]));
        assert(keeps(SockView { refs: a.socks[t].refs, ..b.socks[t] }, a.socks[t]));
        lemma_prefix(net.socks[t].flights, b.socks[t].flights, a.socks[t].flights);
    }
    assert(b.socks[s].refs == less(net.socks[s].refs, k - 1));
    assert(net.idents.update(s, 0).update(s, 0) =~= net.idents.update(s, 0));
}

proof fn lemma_states_twice(net: NetView, b: NetView, a: NetView, s: int, k: int)
    requires
        in_range(net),
        0 <= s < MAX_SOCKETS,
        k > 0,
        contents_stay(net, b, s, k - 1),
        states_stay(net, b, s, k - 1),
        states_stay(b, a, s, 1),
    ensures
        states_stay(net, a, s, k),
{
    assert(b.socks[s].refs == less(net.socks[s].refs, k - 1)) by {
        reveal(contents_stay);
    }
    assert forall|t: int| 0 <= t < MAX_SOCKETS implies (#[trigger] b.socks[t]).backlog
        == net.socks[t].backlog && b.socks[t].far_end == net.socks[t].far_end by {
        reveal(contents_stay);
        assert(keeps(SockView { refs: b.socks[t].refs, ..net.socks[t] }, b.socks[t]));
    }
    reveal(states_stay);
    assert forall|t: int|
        0 <= t < MAX_SOCKETS && (t == s ==> !goes(net, s, k)) && net.socks[t].state != S_CLOSED && (
        goes(net, s, k) ==> !queued_on(net, t, s)) implies (#[trigger] a.socks[t]).state
        == net.socks[t].state by {
        assert(b.socks[t].state == net.socks[t].state);
        assert(b.socks[s].backlog == net.socks[s].backlog);
    }
    assert forall|t: int| 0 <= t < MAX_SOCKETS implies (#[trigger] a.socks[t]).state
        == net.socks[t].state || ended(a.socks[t].state) by {
        assert(b.socks[t].state == net.socks[t].state || ended(b.socks[t].state));
    }
    if !goes(net, s, k) {
        assert forall|t: int| 0 <= t < net.socks.len() implies (#[trigger] a.socks[t]) == (SockView {
            refs: a.socks[t].refs,
            ..net.socks[t]
        }) by {
            assert(b.socks[t] == (SockView { refs: b.socks[t].refs, ..net.socks[t] }));
        }
    } else {
        assert(b.socks[s].far_end == net.socks[s].far_end);
    }
}

proof fn lemma_prefix<T>(a: Seq<T>, b: Seq<T>, c: Seq<T>)
    requires
        a.is_prefix_of(b),
        b.is_prefix_of(c),
    ensures
        a.is_prefix_of(c),
{
    assert(a =~= c.subrange(0, a.len() as int)) by {
        assert(a == b.subrange(0, a.len() as int));
        assert(b == c.subrange(0, b.len() as int));
    }
}

/// Whether every connected socket has a far end
spec fn connected(net: NetView) -> bool {
    forall|t: int|
        0 <= t < MAX_SOCKETS && (#[trigger] net.socks[t]).state == S_CONNECTED ==> net.socks[t].far_end
            < MAX_SOCKETS
}

#[verifier::opaque]
spec fn all_records_less(net: NetView, a: NetView, pid: u32, counts: Seq<u32>, n: int) -> bool {
    &&& one_each(a.fdrefs)
    &&& a.fdrefs.len() == net.fdrefs.len()
    &&& forall|s: u32|
        s < MAX_SOCKETS ==> #[trigger] held(a.fdrefs, pid, s) == held(net.fdrefs, pid, s) - (
        if s < n {
            counts[s as int] as int
        } else {
            0
        })
    &&& forall|p: u32, t: u32|
        p != pid || t >= MAX_SOCKETS ==> #[trigger] held(a.fdrefs, p, t) == held(net.fdrefs, p, t)
}

/// Whether closing that many descriptors of the first `n` sockets closes `t`
pub open spec fn goes_among(net: NetView, counts: Seq<u32>, n: int, t: int) -> bool {
    t < n && goes(net, t, counts[t] as int)
}

#[verifier::opaque]
spec fn all_contents_stay(net: NetView, a: NetView, counts: Seq<u32>, n: int) -> bool {
    &&& in_range(a)
    &&& connected(a)
    &&& forall|t: int|
        0 <= t < MAX_SOCKETS ==> keeps(
            SockView { refs: (#[trigger] a.socks[t]).refs, ..net.socks[t] },
            a.socks[t],
        )
    &&& forall|t: int|
        0 <= t < MAX_SOCKETS ==> (#[trigger] a.socks[t]).refs == (if t < n {
            less(net.socks[t].refs, counts[t] as int)
        } else {
            net.socks[t].refs as int
        })
    &&& forall|t: int|
        0 <= t < MAX_SOCKETS ==> #[trigger] a.idents[t] == (if goes_among(net, counts, n, t) {
            0
        } else {
            net.idents[t]
        })
}

#[verifier::opaque]
spec fn all_states_stay(net: NetView, a: NetView, counts: Seq<u32>, n: int) -> bool {
    &&& forall|t: int|
        0 <= t < MAX_SOCKETS && !goes_among(net, counts, n, t) && net.socks[t].state != S_CLOSED
            && !queued_anywhere(net, t) ==> (#[trigger] a.socks[t]).state == net.socks[t].state
    &&& forall|t: int|
        0 <= t < MAX_SOCKETS ==> (#[trigger] a.socks[t]).state == net.socks[t].state || ended(
            a.socks[t].state,
        )
    &&& forall|t: int|
        0 <= t < MAX_SOCKETS && goes_among(net, counts, n, t) ==> ended((#[trigger] a.socks[t]).state)
    &&& (forall|t: int| 0 <= t < n ==> !#[trigger] goes_among(net, counts, n, t)) ==> like(net, a)
}

/// Whether `t` waits to be accepted
pub open spec fn queued_anywhere(net: NetView, t: int) -> bool {
    exists|s: int| 0 <= s < MAX_SOCKETS && #[trigger] queued_on(net, t, s)
}

proof fn lemma_all_dropped(net: NetView, pid: u32, counts: Seq<u32>, n: int)
    requires
        one_each(net.fdrefs),
        in_range(net),
        connected(net),
        0 <= n <= MAX_SOCKETS,
        counts.len() == MAX_SOCKETS,
        forall|s: u32|
            s < MAX_SOCKETS ==> counts[s as int] <= #[trigger] held(net.fdrefs, pid, s),
    ensures
        all_records_less(net, net.all_dropped(pid, counts, n), pid, counts, n),
        all_contents_stay(net, net.all_dropped(pid, counts, n), counts, n),
        all_states_stay(net, net.all_dropped(pid, counts, n), counts, n),
    decreases n,
{
    if n == 0 {
        reveal(all_records_less);
        reveal(all_contents_stay);
        reveal(all_states_stay);
        lemma_same(net);
        assert forall|t: int| 0 <= t < MAX_SOCKETS implies keeps(
            SockView { refs: (#[trigger] net.socks[t]).refs, ..net.socks[t] },
            net.socks[t],
        ) by {}
    } else {
        lemma_all_dropped(net, pid, counts, n - 1);
        let b = net.all_dropped(pid, counts, n - 1);
        let a = net.all_dropped(pid, counts, n);
        let sock = (n - 1) as u32;
        let k = counts[n - 1] as int;
        assert(one_each(b.fdrefs) && k <= held(b.fdrefs, pid, sock)) by {
            reveal(all_records_less);
        }
        assert(in_range(b)) by {
            reveal(all_contents_stay);
        }
        lemma_drops(b, pid, sock, k);
        assert(all_records_less(net, a, pid, counts, n)) by {
            reveal(all_records_less);
            reveal(records_less);
        }
        lemma_next_contents(net, b, a, counts, n);
        lemma_next_states(net, b, a, counts, n);
    }
}

proof fn lemma_next_contents(net: NetView, b: NetView, a: NetView, counts: Seq<u32>, n: int)
    requires
        in_range(net),
        0 < n <= MAX_SOCKETS,
        counts.len() == MAX_SOCKETS,
        all_contents_stay(net, b, counts, n - 1),
        contents_stay(b, a, n - 1, counts[n - 1] as int),
        states_stay(b, a, n - 1, counts[n - 1] as int),
    ensures
        all_contents_stay(net, a, counts, n),
{
    reveal(contents_stay);
    reveal(states_stay);
    reveal(all_contents_stay);
    assert forall|t: int| 0 <= t < MAX_SOCKETS implies keeps(
        SockView { refs: (#[trigger] a.socks[t]).refs, ..net.socks[t] },
        a.socks[t],
    ) by {
        assert(keeps(SockView { refs: b.socks[t].refs, ..net.socks[t] }, b.socks[t]));
        assert(keeps(SockView { refs: a.socks[t].refs, ..b.socks[t] }, a.socks[t]));
        lemma_prefix(net.socks[t].flights, b.socks[t].flights, a.socks[t].flights);
    }
    assert(connected(a)) by {
        assert forall|t: int|
            0 <= t < MAX_SOCKETS && (#[trigger] a.socks[t]).state
                == S_CONNECTED implies a.socks[t].far_end < MAX_SOCKETS by {
            assert(b.socks[t].state == S_CONNECTED);
            assert(keeps(SockView { refs: a.socks[t].refs, ..b.socks[t] }, a.socks[t]));
        }
    }
    assert(b.socks[n - 1].refs == net.socks[n - 1].refs);
    assert forall|t: int| 0 <= t < MAX_SOCKETS implies (#[trigger] a.socks[t]).refs == (if t < n {
        less(net.socks[t].refs, counts[t] as int)
    } else {
        net.socks[t].refs as int
    }) by {
        assert(b.socks[t].refs == (if t < n - 1 {
            less(net.socks[t].refs, counts[t] as int)
        } else {
            net.socks[t].refs as int
        }));
    }
    assert forall|t: int| 0 <= t < MAX_SOCKETS implies #[trigger] a.idents[t] == (if goes_among(
        net,
        counts,
        n,
        t,
    ) {
        0
    } else {
        net.idents[t]
    }) by {
        assert(b.idents[t] == (if goes_among(net, counts, n - 1, t) {
            0
        } else {
            net.idents[t]
        }));
    }
}

proof fn lemma_next_states(net: NetView, b: NetView, a: NetView, counts: Seq<u32>, n: int)
    requires
        in_range(net),
        0 < n <= MAX_SOCKETS,
        counts.len() == MAX_SOCKETS,
        all_contents_stay(net, b, counts, n - 1),
        all_states_stay(net, b, counts, n - 1),
        states_stay(b, a, n - 1, counts[n - 1] as int),
    ensures
        all_states_stay(net, a, counts, n),
{
    let s = n - 1;
    let k = counts[s] as int;
    assert(b.socks[s].refs == net.socks[s].refs && connected(b)) by {
        reveal(all_contents_stay);
    }
    assert(goes(b, s, k) == goes_among(net, counts, n, s));
    assert forall|t: int| 0 <= t < MAX_SOCKETS implies (#[trigger] b.socks[t]).backlog
        == net.socks[t].backlog by {
        reveal(all_contents_stay);
        assert(keeps(SockView { refs: b.socks[t].refs, ..net.socks[t] }, b.socks[t]));
    }
    reveal(states_stay);
    reveal(all_states_stay);
    assert forall|t: int|
        0 <= t < MAX_SOCKETS && !goes_among(net, counts, n, t) && net.socks[t].state != S_CLOSED
            && !queued_anywhere(net, t) implies (#[trigger] a.socks[t]).state
        == net.socks[t].state by {
        assert(!goes_among(net, counts, n - 1, t));
        assert(b.socks[t].state == net.socks[t].state);
        assert(b.socks[s].backlog == net.socks[s].backlog);
        assert(!queued_on(net, t, s));
        assert(!queued_on(b, t, s));
    }
    assert forall|t: int| 0 <= t < MAX_SOCKETS implies (#[trigger] a.socks[t]).state
        == net.socks[t].state || ended(a.socks[t].state) by {
        assert(b.socks[t].state == net.socks[t].state || ended(b.socks[t].state));
    }
    assert forall|t: int| 0 <= t < MAX_SOCKETS && goes_among(net, counts, n, t) implies ended(
        (#[trigger] a.socks[t]).state,
    ) by {
        if t < n - 1 {
            assert(goes_among(net, counts, n - 1, t));
            assert(ended(b.socks[t].state));
        }
    }
    if forall|t: int| 0 <= t < n ==> !#[trigger] goes_among(net, counts, n, t) {
        assert(!goes_among(net, counts, n, s));
        assert forall|t: int| 0 <= t < n - 1 implies !#[trigger] goes_among(net, counts, n - 1, t) by {
            assert(!goes_among(net, counts, n, t));
        }
        assert forall|t: int| 0 <= t < net.socks.len() implies (#[trigger] a.socks[t]) == (SockView {
            refs: a.socks[t].refs,
            ..net.socks[t]
        }) by {
            assert(b.socks[t] == (SockView { refs: b.socks[t].refs, ..net.socks[t] }));
        }
    }
}

/// How many descriptors the first `n` records count for `sock`
pub open spec fn total(refs: Seq<FdRef>, sock: int, n: int) -> int
    decreases n,
{
    if n <= 0 {
        0
    } else {
        total(refs, sock, n - 1) + (if refs[n - 1].sock == sock {
            refs[n - 1].count as int
        } else {
            0
        })
    }
}

/// Whether each socket's count is what the processes hold of it
pub open spec fn accounted(net: NetView) -> bool {
    forall|s: int|
        0 <= s < MAX_SOCKETS ==> (#[trigger] net.socks[s]).refs == total(
            net.fdrefs,
            s,
            net.fdrefs.len() as int,
        )
}

proof fn lemma_total_update(refs: Seq<FdRef>, i: int, r: FdRef, sock: int, n: int)
    requires
        0 <= i < refs.len(),
        0 <= n <= refs.len(),
    ensures
        total(refs.update(i, r), sock, n) == total(refs, sock, n) + (if i < n {
            (if r.sock == sock {
                r.count as int
            } else {
                0
            }) - (if refs[i].sock == sock {
                refs[i].count as int
            } else {
                0
            })
        } else {
            0
        }),
    decreases n,
{
    if n > 0 {
        lemma_total_update(refs, i, r, sock, n - 1);
    }
}

/// Two records count no more than all.
proof fn lemma_total_two(refs: Seq<FdRef>, i: int, j: int, sock: int, n: int)
    requires
        0 <= n <= refs.len(),
    ensures
        total(refs, sock, n) >= (if 0 <= i < n && refs[i].sock == sock {
            refs[i].count as int
        } else {
            0
        }) + (if 0 <= j < n && i != j && refs[j].sock == sock {
            refs[j].count as int
        } else {
            0
        }),
    decreases n,
{
    if n > 0 {
        lemma_total_two(refs, i, j, sock, n - 1);
    }
}

/// Two processes hold no more of a socket than there is.
proof fn lemma_shares(net: NetView, pid: u32, other: u32, sock: u32)
    requires
        accounted(net),
        sock < MAX_SOCKETS,
    ensures
        held(net.fdrefs, pid, sock) <= net.socks[sock as int].refs,
        pid != other ==> held(net.fdrefs, pid, sock) + held(net.fdrefs, other, sock)
            <= net.socks[sock as int].refs,
{
    let refs = net.fdrefs;
    netstate::refs::lemma_ref_from(refs, pid, sock, 0);
    netstate::refs::lemma_ref_from(refs, other, sock, 0);
    let i = match netstate::refs::ref_from(refs, pid, sock, 0) {
        Some(i) => i,
        None => -1,
    };
    let j = match netstate::refs::ref_from(refs, other, sock, 0) {
        Some(j) => j,
        None => -1,
    };
    lemma_total_two(refs, i, j, sock as int, refs.len() as int);
    assert(net.socks[sock as int].refs == total(refs, sock as int, refs.len() as int));
}

/// The counts add up: where each socket's count is what the processes hold
/// of it, that is still so when a process gains a descriptor or closes one
/// that it has.
pub proof fn a_descriptor_counts_once(net: NetView, pid: u32, sock: u32)
    requires
        net.wf(),
        accounted(net),
        sock < MAX_SOCKETS,
    ensures
        net.can_add(pid, sock) && net.socks[sock as int].refs < u32::MAX ==> accounted(
            net.ref_added(pid, sock),
        ),
        held(net.fdrefs, pid, sock) > 0 ==> accounted(net.ref_dropped(pid, sock)),
{
    lemma_in_range_of(net);
    lemma_counts_once(net, pid, sock);
}

proof fn lemma_counts_once(net: NetView, pid: u32, sock: u32)
    requires
        fit(net),
        accounted(net),
        sock < MAX_SOCKETS,
    ensures
        net.can_add(pid, sock) && net.socks[sock as int].refs < u32::MAX ==> accounted(
            net.ref_added(pid, sock),
        ),
        held(net.fdrefs, pid, sock) > 0 ==> accounted(net.ref_dropped(pid, sock)),
{
    let refs = net.fdrefs;
    let s = sock as int;
    lemma_shares(net, pid, pid, sock);
    netstate::refs::lemma_ref_from(refs, pid, sock, 0);
    netstate::refs::lemma_spare_from(refs, 0);
    if net.can_add(pid, sock) && net.socks[s].refs < u32::MAX {
        let i = slot(refs, pid, sock).unwrap();
        let a = net.ref_added(pid, sock);
        let r = FdRef { pid, sock, count: netstate::refs::up(held(refs, pid, sock)) };
        assert forall|t: int| 0 <= t < MAX_SOCKETS implies (#[trigger] a.socks[t]).refs == total(
            a.fdrefs,
            t,
            a.fdrefs.len() as int,
        ) by {
            lemma_total_update(refs, i, r, t, refs.len() as int);
            assert(net.socks[t].refs == total(refs, t, refs.len() as int));
        }
    }
    if held(refs, pid, sock) > 0 {
        let i = slot(refs, pid, sock).unwrap();
        let a = net.ref_dropped(pid, sock);
        let r = FdRef { pid, sock, count: netstate::refs::down(held(refs, pid, sock)) };
        lemma_dropped(net, pid, sock);
        assert(a.fdrefs == refs.update(i, r)) by {
            let mid = net.counted(pid, sock, r.count).with_refs(
                s,
                netstate::refs::down(net.socks[s].refs),
            );
            lemma_in_range_mid(net, mid);
            lemma_released(mid, s);
        }
        reveal(contents_stay);
        assert forall|t: int| 0 <= t < MAX_SOCKETS implies (#[trigger] a.socks[t]).refs == total(
            a.fdrefs,
            t,
            a.fdrefs.len() as int,
        ) by {
            lemma_total_update(refs, i, r, t, refs.len() as int);
            assert(net.socks[t].refs == total(refs, t, refs.len() as int));
        }
    }
}

proof fn lemma_in_range_mid(net: NetView, mid: NetView)
    requires
        in_range(net),
        mid.idents == net.idents,
        mid.socks.len() == net.socks.len(),
        forall|t: int|
            0 <= t < MAX_SOCKETS ==> (#[trigger] mid.socks[t]).backlog == net.socks[t].backlog,
    ensures
        in_range(mid),
{
    assert forall|x: int, k: int|
        0 <= x < MAX_SOCKETS && 0 <= k < mid.socks[x].backlog.len() implies (
    #[trigger] mid.socks[x].backlog[k]) < MAX_SOCKETS by {
        assert(mid.socks[x].backlog == net.socks[x].backlog);
        assert(net.socks[x].backlog[k] < MAX_SOCKETS);
    }
}

proof fn lemma_in_range_of(net: NetView)
    requires
        net.wf(),
    ensures
        in_range(net),
        connected(net),
{
    reveal(SockView::wf);
    assert forall|x: int, k: int|
        0 <= x < MAX_SOCKETS && 0 <= k < net.socks[x].backlog.len() implies (
    #[trigger] net.socks[x].backlog[k]) < MAX_SOCKETS by {
        assert(net.socks[x].wf());
    }
    assert forall|t: int|
        0 <= t < MAX_SOCKETS && (#[trigger] net.socks[t]).state == S_CONNECTED implies net.socks[t].far_end
        < MAX_SOCKETS by {
        assert(net.socks[t].wf());
    }
}

/// What the steps of `set_refs` rest on
spec fn fit(net: NetView) -> bool {
    &&& one_each(net.fdrefs)
    &&& in_range(net)
    &&& connected(net)
}

/// Both halves of `set_refs`
proof fn lemma_set(net: NetView, pid: u32, list: Seq<u32>)
    requires
        fit(net),
        has_room(net, pid, list),
        countable(net, pid, list.len() as int),
    ensures
        ({
            let n = list.len() as int;
            let b = net.refs_added(pid, list, n);
            let a = net.refs_set(pid, list);
            let counts = net.holdings(pid);
            &&& fit(b)
            &&& like(net, b)
            &&& forall|s: int|
                0 <= s < MAX_SOCKETS ==> (#[trigger] b.socks[s]).refs == net.socks[s].refs + occurs(
                    list,
                    s,
                    n,
                ) && held(b.fdrefs, pid, s as u32) == counts[s] + occurs(list, s, n)
            &&& forall|p: u32, s: u32|
                p != pid || s >= MAX_SOCKETS ==> #[trigger] held(b.fdrefs, p, s) == held(
                    net.fdrefs,
                    p,
                    s,
                )
            &&& all_records_less(b, a, pid, counts, MAX_SOCKETS as int)
            &&& all_contents_stay(b, a, counts, MAX_SOCKETS as int)
            &&& all_states_stay(b, a, counts, MAX_SOCKETS as int)
            &&& fit(a)
        }),
{
    let n = list.len() as int;
    let b = net.refs_added(pid, list, n);
    let counts = net.holdings(pid);
    lemma_added(net, pid, list, n);
    assert forall|s: int| 0 <= s < MAX_SOCKETS implies (#[trigger] b.socks[s]).refs
        == net.socks[s].refs + occurs(list, s, n) && held(b.fdrefs, pid, s as u32) == counts[s]
        + occurs(list, s, n) by {
        assert(counts[s] == held(net.fdrefs, pid, s as u32));
        assert(b.socks[s].refs == net.socks[s].refs + occurs(list, s, n));
    }
    lemma_in_range_mid(net, b);
    assert(connected(b)) by {
        assert forall|t: int|
            0 <= t < MAX_SOCKETS && (#[trigger] b.socks[t]).state
                == S_CONNECTED implies b.socks[t].far_end < MAX_SOCKETS by {
            assert(net.socks[t].state == S_CONNECTED);
        }
    }
    assert forall|s: u32| s < MAX_SOCKETS implies counts[s as int] <= #[trigger] held(
        b.fdrefs,
        pid,
        s,
    ) by {
        lemma_occurs(list, s as int, n);
        assert(b.socks[s as int].refs == net.socks[s as int].refs + occurs(list, s as int, n));
    }
    lemma_all_dropped(b, pid, counts, MAX_SOCKETS as int);
    reveal(all_records_less);
    reveal(all_contents_stay);
}

/// After `set_refs` a process holds each socket as often as it was named,
/// and what the others hold is as before. A socket's count has changed by
/// just that.
proof fn lemma_holds(net: NetView, pid: u32, list: Seq<u32>)
    requires
        fit(net),
        has_room(net, pid, list),
        countable(net, pid, list.len() as int),
    ensures
        one_each(net.refs_set(pid, list).fdrefs),
        forall|s: u32|
            s < MAX_SOCKETS ==> #[trigger] held(net.refs_set(pid, list).fdrefs, pid, s) == occurs(
                list,
                s as int,
                list.len() as int,
            ),
        forall|p: u32, s: u32|
            p != pid ==> #[trigger] held(net.refs_set(pid, list).fdrefs, p, s) == held(
                net.fdrefs,
                p,
                s,
            ),
        accounted(net) ==> forall|s: int|
            0 <= s < MAX_SOCKETS ==> (#[trigger] net.refs_set(pid, list).socks[s]).refs
                == net.socks[s].refs + occurs(list, s, list.len() as int) - held(
                net.fdrefs,
                pid,
                s as u32,
            ),
{
    lemma_set(net, pid, list);
    let n = list.len() as int;
    let b = net.refs_added(pid, list, n);
    let a = net.refs_set(pid, list);
    let counts = net.holdings(pid);
    reveal(all_records_less);
    assert forall|s: u32| s < MAX_SOCKETS implies #[trigger] held(a.fdrefs, pid, s) == occurs(
        list,
        s as int,
        n,
    ) by {
        assert(b.socks[s as int].refs == net.socks[s as int].refs + occurs(list, s as int, n));
    }
    assert forall|p: u32, s: u32| p != pid implies #[trigger] held(a.fdrefs, p, s) == held(
        net.fdrefs,
        p,
        s,
    ) by {
        assert(held(b.fdrefs, p, s) == held(net.fdrefs, p, s));
    }
    if accounted(net) {
        reveal(all_contents_stay);
        assert forall|s: int| 0 <= s < MAX_SOCKETS implies (#[trigger] a.socks[s]).refs
            == net.socks[s].refs + occurs(list, s, n) - held(net.fdrefs, pid, s as u32) by {
            lemma_shares(net, pid, pid, s as u32);
            lemma_occurs(list, s, n);
            assert(a.socks[s].refs == less(b.socks[s].refs, counts[s] as int));
            assert(b.socks[s].refs == net.socks[s].refs + occurs(list, s, n));
        }
    }
}

/// A socket that the process is to hold, or that another one holds, is not
/// released.
proof fn lemma_not_released(net: NetView, pid: u32, list: Seq<u32>, other: u32, t: u32)
    requires
        fit(net),
        has_room(net, pid, list),
        countable(net, pid, list.len() as int),
        accounted(net),
        t < MAX_SOCKETS,
        occurs(list, t as int, list.len() as int) > 0 || (other != pid && held(
            net.fdrefs,
            other,
            t,
        ) > 0),
        net.socks[t as int].state != S_CLOSED,
        !queued_anywhere(net, t as int),
    ensures
        net.refs_set(pid, list).socks[t as int].state == net.socks[t as int].state,
        net.refs_set(pid, list).idents[t as int] == net.idents[t as int],
        net.refs_set(pid, list).socks[t as int].rx == net.socks[t as int].rx,
        net.socks[t as int].flights.is_prefix_of(
            net.refs_set(pid, list).socks[t as int].flights,
        ),
{
    lemma_set(net, pid, list);
    let n = list.len() as int;
    let b = net.refs_added(pid, list, n);
    let a = net.refs_set(pid, list);
    let counts = net.holdings(pid);
    let s = t as int;
    lemma_shares(net, pid, other, t);
    lemma_occurs(list, s, n);
    assert(b.socks[s].refs == net.socks[s].refs + occurs(list, s, n));
    assert(!goes_among(b, counts, MAX_SOCKETS as int, s));
    assert(!queued_anywhere(b, s)) by {
        assert forall|x: int| 0 <= x < MAX_SOCKETS implies !#[trigger] queued_on(b, s, x) by {
            assert(!queued_on(net, s, x));
            assert(b.socks[x].backlog == net.socks[x].backlog);
        }
    }
    reveal(all_contents_stay);
    reveal(all_states_stay);
    assert(a.idents[s] == b.idents[s]);
    assert(keeps(SockView { refs: a.socks[s].refs, ..b.socks[s] }, a.socks[s]));
}

/// A socket whose last descriptor was closed is released.
proof fn lemma_gone(net: NetView, pid: u32, list: Seq<u32>, t: u32)
    requires
        fit(net),
        has_room(net, pid, list),
        countable(net, pid, list.len() as int),
        t < MAX_SOCKETS,
        held(net.fdrefs, pid, t) > 0,
        net.socks[t as int].refs + occurs(list, t as int, list.len() as int) <= held(
            net.fdrefs,
            pid,
            t,
        ),
    ensures
        net.refs_set(pid, list).socks[t as int].refs == 0,
        net.refs_set(pid, list).idents[t as int] == 0,
        ended(net.refs_set(pid, list).socks[t as int].state),
{
    lemma_set(net, pid, list);
    let n = list.len() as int;
    let b = net.refs_added(pid, list, n);
    let a = net.refs_set(pid, list);
    let counts = net.holdings(pid);
    let s = t as int;
    assert(b.socks[s].refs == net.socks[s].refs + occurs(list, s, n));
    assert(goes_among(b, counts, MAX_SOCKETS as int, s));
    reveal(all_contents_stay);
    reveal(all_states_stay);
    assert(a.idents[s] == 0);
    assert(a.socks[s].refs == less(b.socks[s].refs, counts[s] as int));
}

/// A process that died holds no socket.
pub proof fn the_dead_hold_no_socket(net: NetView, pid: u32, sock: u32)
    requires
        net.wf(),
        sock < MAX_SOCKETS,
    ensures
        held(net.refs_set(pid, Seq::empty()).fdrefs, pid, sock) == 0,
{
    lemma_in_range_of(net);
    lemma_holds(net, pid, Seq::empty());
}

/// Whether the records of `a` stand in `b` where they were, whatever they
/// count, and the spare ones are as they were
spec fn in_place(a: Seq<FdRef>, b: Seq<FdRef>) -> bool {
    &&& a.len() == b.len()
    &&& forall|i: int|
        0 <= i < a.len() ==> (if a[i].count > 0 {
            (#[trigger] b[i]).count > 0 && b[i].pid == a[i].pid && b[i].sock == a[i].sock
        } else {
            b[i] == a[i]
        })
}

/// A record that stays is changed in its place.
proof fn lemma_in_place(refs: Seq<FdRef>, pid: u32, sock: u32, count: u32)
    requires
        held(refs, pid, sock) > 0,
        count > 0,
    ensures
        slot(refs, pid, sock) matches Some(i) && in_place(
            refs,
            refs.update(i, FdRef { pid, sock, count }),
        ),
{
    netstate::refs::lemma_ref_from(refs, pid, sock, 0);
}

proof fn lemma_added_in_place(net: NetView, pid: u32, list: Seq<u32>, n: int)
    requires
        one_each(net.fdrefs),
        net.socks.len() == MAX_SOCKETS,
        countable(net, pid, list.len() as int),
        0 <= n <= list.len(),
        forall|i: int|
            0 <= i < list.len() ==> (#[trigger] list[i]) < MAX_SOCKETS && held(
                net.fdrefs,
                pid,
                list[i],
            ) > 0,
        has_room(net, pid, list),
    ensures
        in_place(net.fdrefs, net.refs_added(pid, list, n).fdrefs),
    decreases n,
{
    if n > 0 {
        lemma_added_in_place(net, pid, list, n - 1);
        lemma_added(net, pid, list, n - 1);
        let b = net.refs_added(pid, list, n - 1);
        let sock = list[n - 1];
        lemma_occurs(list, sock as int, n - 1);
        assert(b.socks[sock as int].refs == net.socks[sock as int].refs + occurs(
            list,
            sock as int,
            n - 1,
        ));
        lemma_in_place(b.fdrefs, pid, sock, netstate::refs::up(held(b.fdrefs, pid, sock)));
    }
}

/// Where all are held already there is room.
proof fn lemma_has_room(net: NetView, pid: u32, list: Seq<u32>, n: int)
    requires
        one_each(net.fdrefs),
        0 <= n <= list.len(),
        forall|i: int|
            0 <= i < list.len() ==> (#[trigger] list[i]) < MAX_SOCKETS && held(
                net.fdrefs,
                pid,
                list[i],
            ) > 0,
    ensures
        one_each(net.refs_added(pid, list, n).fdrefs),
        forall|i: int|
            0 <= i < list.len() ==> held(
                net.refs_added(pid, list, n).fdrefs,
                pid,
                #[trigger] list[i],
            ) > 0,
        forall|i: int|
            0 <= i < n ==> net.refs_added(pid, list, i).can_add(pid, #[trigger] list[i]),
        n < list.len() ==> net.refs_added(pid, list, n).can_add(pid, list[n]),
    decreases n,
{
    if n > 0 {
        lemma_has_room(net, pid, list, n - 1);
        let b = net.refs_added(pid, list, n - 1);
        let sock = list[n - 1];
        assert(held(b.fdrefs, pid, sock) > 0);
        lemma_counted(b.fdrefs, pid, sock, netstate::refs::up(held(b.fdrefs, pid, sock)));
        let a = net.refs_added(pid, list, n);
        assert forall|i: int| 0 <= i < list.len() implies held(
            a.fdrefs,
            pid,
            #[trigger] list[i],
        ) > 0 by {
            assert(held(b.fdrefs, pid, list[i]) > 0);
        }
    }
    if n < list.len() {
        assert(held(net.refs_added(pid, list, n).fdrefs, pid, list[n]) > 0);
    }
}

proof fn lemma_drops_in_place(net: NetView, pid: u32, sock: u32, k: int)
    requires
        one_each(net.fdrefs),
        in_range(net),
        sock < MAX_SOCKETS,
        0 <= k,
        k == 0 || k < held(net.fdrefs, pid, sock),
    ensures
        in_place(net.fdrefs, net.refs_dropped(pid, sock, k).fdrefs),
    decreases k,
{
    if k > 0 {
        lemma_drops_in_place(net, pid, sock, k - 1);
        lemma_drops(net, pid, sock, k - 1);
        let b = net.refs_dropped(pid, sock, k - 1);
        assert(in_range(b)) by {
            reveal(contents_stay);
        }
        assert(held(b.fdrefs, pid, sock) > 1) by {
            reveal(records_less);
        }
        let count = netstate::refs::down(held(b.fdrefs, pid, sock));
        lemma_in_place(b.fdrefs, pid, sock, count);
        let refs = netstate::refs::down(b.socks[sock as int].refs);
        let mid = b.counted(pid, sock, count).with_refs(sock as int, refs);
        lemma_in_range_mid(b, mid);
        lemma_released(mid, sock as int);
    }
}

proof fn lemma_all_in_place(net: NetView, pid: u32, counts: Seq<u32>, n: int)
    requires
        one_each(net.fdrefs),
        in_range(net),
        connected(net),
        0 <= n <= MAX_SOCKETS,
        counts.len() == MAX_SOCKETS,
        forall|s: u32|
            s < MAX_SOCKETS ==> counts[s as int] == 0 || counts[s as int] < #[trigger] held(
                net.fdrefs,
                pid,
                s,
            ),
    ensures
        in_place(net.fdrefs, net.all_dropped(pid, counts, n).fdrefs),
    decreases n,
{
    if n > 0 {
        lemma_all_in_place(net, pid, counts, n - 1);
        assert forall|s: u32| s < MAX_SOCKETS implies counts[s as int] <= #[trigger] held(
            net.fdrefs,
            pid,
            s,
        ) by {}
        lemma_all_dropped(net, pid, counts, n - 1);
        let b = net.all_dropped(pid, counts, n - 1);
        let sock = (n - 1) as u32;
        assert(in_range(b)) by {
            reveal(all_contents_stay);
        }
        assert(one_each(b.fdrefs) && held(b.fdrefs, pid, sock) == held(net.fdrefs, pid, sock)) by {
            reveal(all_records_less);
        }
        lemma_drops_in_place(b, pid, sock, counts[n - 1] as int);
    }
}

/// Records in their places that count the same are the same.
proof fn lemma_same_records(a: Seq<FdRef>, b: Seq<FdRef>)
    requires
        one_each(a),
        one_each(b),
        in_place(a, b),
        forall|p: u32, s: u32| #[trigger] held(a, p, s) == held(b, p, s),
    ensures
        a == b,
{
    assert forall|i: int| 0 <= i < a.len() implies a[i] == b[i] by {
        if a[i].count > 0 {
            assert(b[i].count > 0);
            netstate::refs::lemma_ref_from(a, a[i].pid, a[i].sock, 0);
            netstate::refs::lemma_ref_from(b, a[i].pid, a[i].sock, 0);
            assert(held(a, a[i].pid, a[i].sock) == held(b, a[i].pid, a[i].sock));
        } else {
            assert(b[i] == a[i]);
        }
    }
    assert(a =~= b);
}

/// A second `set_refs` with the same descriptors changes nothing.
proof fn lemma_again(net: NetView, pid: u32, list: Seq<u32>)
    requires
        fit(net),
        has_room(net, pid, list),
        countable(net, pid, list.len() as int),
        accounted(net),
        countable(net.refs_set(pid, list), pid, list.len() as int),
    ensures
        has_room(net.refs_set(pid, list), pid, list),
        net.refs_set(pid, list).refs_set(pid, list) == net.refs_set(pid, list),
{
    let n = list.len() as int;
    let a = net.refs_set(pid, list);
    lemma_holds(net, pid, list);
    lemma_set(net, pid, list);
    assert forall|s: int| 0 <= s < MAX_SOCKETS implies (#[trigger] a.socks[s]).refs >= occurs(
        list,
        s,
        n,
    ) by {
        lemma_shares(net, pid, pid, s as u32);
    }
    assert forall|i: int| 0 <= i < list.len() implies (#[trigger] list[i]) < MAX_SOCKETS && held(
        a.fdrefs,
        pid,
        list[i],
    ) > 0 by {
        assert(list[i] < MAX_SOCKETS);
        lemma_occurs_in(list, i, n);
    }
    lemma_has_room(a, pid, list, n);
    lemma_set(a, pid, list);
    lemma_added_in_place(a, pid, list, n);
    let b = a.refs_added(pid, list, n);
    let c = a.refs_set(pid, list);
    let counts = a.holdings(pid);
    assert forall|s: u32| s < MAX_SOCKETS implies counts[s as int] == 0 || counts[s as int]
        < #[trigger] held(b.fdrefs, pid, s) by {
        assert(b.socks[s as int].refs == a.socks[s as int].refs + occurs(list, s as int, n));
        assert(counts[s as int] == held(a.fdrefs, pid, s));
    }
    assert(connected(b)) by {
        assert forall|t: int|
            0 <= t < MAX_SOCKETS && (#[trigger] b.socks[t]).state
                == S_CONNECTED implies b.socks[t].far_end < MAX_SOCKETS by {
            assert(a.socks[t].state == S_CONNECTED);
        }
    }
    lemma_all_in_place(b, pid, counts, MAX_SOCKETS as int);
    assert forall|t: int| 0 <= t < MAX_SOCKETS implies !#[trigger] goes_among(
        b,
        counts,
        MAX_SOCKETS as int,
        t,
    ) by {
        assert(b.socks[t].refs == a.socks[t].refs + occurs(list, t, n));
        assert(counts[t] == held(a.fdrefs, pid, t as u32));
        lemma_occurs(list, t, n);
    }
    assert(like(b, c)) by {
        reveal(all_states_stay);
    }
    lemma_back(a, b, c, pid, list);
}

proof fn lemma_occurs_in(list: Seq<u32>, i: int, n: int)
    requires
        0 <= i < n <= list.len(),
    ensures
        occurs(list, list[i] as int, n) > 0,
    decreases n,
{
    lemma_occurs(list, list[i] as int, n - 1);
    if i < n - 1 {
        lemma_occurs_in(list, i, n - 1);
    }
}

/// What was counted up and down again is as it was.
proof fn lemma_back(a: NetView, b: NetView, c: NetView, pid: u32, list: Seq<u32>)
    requires
        fit(a),
        like(a, b),
        like(b, c),
        in_place(a.fdrefs, b.fdrefs),
        in_place(b.fdrefs, c.fdrefs),
        forall|s: int|
            0 <= s < MAX_SOCKETS ==> (#[trigger] b.socks[s]).refs == a.socks[s].refs + occurs(
                list,
                s,
                list.len() as int,
            ) && held(b.fdrefs, pid, s as u32) == a.holdings(pid)[s] + occurs(
                list,
                s,
                list.len() as int,
            ),
        forall|p: u32, s: u32|
            p != pid || s >= MAX_SOCKETS ==> #[trigger] held(b.fdrefs, p, s) == held(
                a.fdrefs,
                p,
                s,
            ),
        forall|s: u32|
            s < MAX_SOCKETS ==> #[trigger] held(a.fdrefs, pid, s) == occurs(
                list,
                s as int,
                list.len() as int,
            ),
        all_records_less(b, c, pid, a.holdings(pid), MAX_SOCKETS as int),
        all_contents_stay(b, c, a.holdings(pid), MAX_SOCKETS as int),
    ensures
        c == a,
{
    let n = list.len() as int;
    let counts = a.holdings(pid);
    assert forall|t: int| 0 <= t < MAX_SOCKETS implies c.socks[t] == #[trigger] a.socks[t] by {
        reveal(all_contents_stay);
        assert(c.socks[t].refs == less(b.socks[t].refs, counts[t] as int));
        assert(b.socks[t].refs == a.socks[t].refs + occurs(list, t, n));
        assert(counts[t] == held(a.fdrefs, pid, t as u32));
        assert(held(a.fdrefs, pid, t as u32) == occurs(list, t, n));
        lemma_occurs(list, t, n);
        assert(c.socks[t] == (SockView { refs: c.socks[t].refs, ..b.socks[t] }));
        assert(b.socks[t] == (SockView { refs: b.socks[t].refs, ..a.socks[t] }));
    }
    assert(c.socks =~= a.socks);
    reveal(all_records_less);
    assert forall|p: u32, s: u32| #[trigger] held(a.fdrefs, p, s) == held(c.fdrefs, p, s) by {
        if p != pid || s >= MAX_SOCKETS {
            assert(held(c.fdrefs, p, s) == held(b.fdrefs, p, s));
            assert(held(b.fdrefs, p, s) == held(a.fdrefs, p, s));
        } else {
            assert(held(c.fdrefs, pid, s) == held(b.fdrefs, pid, s) - counts[s as int]);
            assert(b.socks[s as int].refs == a.socks[s as int].refs + occurs(list, s as int, n));
            assert(counts[s as int] == held(a.fdrefs, pid, s));
        }
    }
    lemma_same_records(a.fdrefs, c.fdrefs);
}

proof fn lemma_added_accounted(net: NetView, pid: u32, list: Seq<u32>, n: int)
    requires
        fit(net),
        accounted(net),
        has_room(net, pid, list),
        countable(net, pid, list.len() as int),
        0 <= n <= list.len(),
    ensures
        accounted(net.refs_added(pid, list, n)),
    decreases n,
{
    if n > 0 {
        lemma_added_accounted(net, pid, list, n - 1);
        lemma_added(net, pid, list, n - 1);
        let b = net.refs_added(pid, list, n - 1);
        let sock = list[n - 1];
        lemma_in_range_mid(net, b);
        assert(connected(b)) by {
            assert forall|t: int|
                0 <= t < MAX_SOCKETS && (#[trigger] b.socks[t]).state
                    == S_CONNECTED implies b.socks[t].far_end < MAX_SOCKETS by {
                assert(net.socks[t].state == S_CONNECTED);
            }
        }
        assert(b.can_add(pid, sock));
        lemma_occurs(list, sock as int, n - 1);
        assert(net.socks[sock as int].refs + list.len() <= u32::MAX);
        assert(b.socks[sock as int].refs < u32::MAX);
        lemma_counts_once(b, pid, sock);
    }
}

proof fn lemma_drops_accounted(net: NetView, pid: u32, sock: u32, k: int)
    requires
        fit(net),
        accounted(net),
        sock < MAX_SOCKETS,
        0 <= k <= held(net.fdrefs, pid, sock),
    ensures
        accounted(net.refs_dropped(pid, sock, k)),
    decreases k,
{
    if k > 0 {
        lemma_drops_accounted(net, pid, sock, k - 1);
        lemma_drops(net, pid, sock, k - 1);
        let b = net.refs_dropped(pid, sock, k - 1);
        assert(one_each(b.fdrefs) && held(b.fdrefs, pid, sock) > 0) by {
            reveal(records_less);
        }
        assert(in_range(b)) by {
            reveal(contents_stay);
        }
        lemma_still_connected(net, b, sock as int, k - 1);
        lemma_counts_once(b, pid, sock);
    }
}

/// Closing descriptors connects nothing.
proof fn lemma_still_connected(net: NetView, b: NetView, s: int, k: int)
    requires
        connected(net),
        contents_stay(net, b, s, k),
        states_stay(net, b, s, k),
    ensures
        connected(b),
{
    reveal(contents_stay);
    reveal(states_stay);
    assert forall|t: int|
        0 <= t < MAX_SOCKETS && (#[trigger] b.socks[t]).state == S_CONNECTED implies b.socks[t].far_end
        < MAX_SOCKETS by {
        assert(net.socks[t].state == S_CONNECTED);
        assert(keeps(SockView { refs: b.socks[t].refs, ..net.socks[t] }, b.socks[t]));
    }
}

proof fn lemma_all_accounted(net: NetView, pid: u32, counts: Seq<u32>, n: int)
    requires
        fit(net),
        accounted(net),
        0 <= n <= MAX_SOCKETS,
        counts.len() == MAX_SOCKETS,
        forall|s: u32|
            s < MAX_SOCKETS ==> counts[s as int] <= #[trigger] held(net.fdrefs, pid, s),
    ensures
        accounted(net.all_dropped(pid, counts, n)),
    decreases n,
{
    if n > 0 {
        lemma_all_accounted(net, pid, counts, n - 1);
        lemma_all_dropped(net, pid, counts, n - 1);
        let b = net.all_dropped(pid, counts, n - 1);
        let sock = (n - 1) as u32;
        assert(fit(b) && counts[n - 1] <= held(b.fdrefs, pid, sock)) by {
            reveal(all_records_less);
            reveal(all_contents_stay);
        }
        lemma_drops_accounted(b, pid, sock, counts[n - 1] as int);
    }
}

/// What `set_refs` leaves: the process holds each socket as often as it was
/// named, what the others hold is as before, and a socket's count has changed
/// by just that difference, so that the counts add up still. A live socket
/// that the process is to hold, or that another one holds, is not released in
/// between: its state, its name and what it has received stay, and so does all
/// that is on its way. One whose last descriptor was closed is released: it
/// has lost its name, and it is free, or closed until its far end goes. A
/// second call with the same descriptors changes nothing.
pub proof fn what_set_refs_leaves(net: NetView, pid: u32, list: Seq<u32>)
    requires
        net.wf(),
        accounted(net),
        has_room(net, pid, list),
        countable(net, pid, list.len() as int),
    ensures
        ({
            let after = net.refs_set(pid, list);
            let n = list.len() as int;
            &&& one_each(after.fdrefs)
            &&& accounted(after)
            &&& forall|s: u32|
                s < MAX_SOCKETS ==> #[trigger] held(after.fdrefs, pid, s) == occurs(
                    list,
                    s as int,
                    n,
                )
            &&& forall|p: u32, s: u32|
                p != pid ==> #[trigger] held(after.fdrefs, p, s) == held(net.fdrefs, p, s)
            &&& forall|s: int|
                0 <= s < MAX_SOCKETS ==> (#[trigger] after.socks[s]).refs == net.socks[s].refs
                    + occurs(list, s, n) - held(net.fdrefs, pid, s as u32)
            &&& forall|t: int, other: u32|
                #![trigger after.socks[t], held(net.fdrefs, other, t as u32)]
                0 <= t < MAX_SOCKETS && (occurs(list, t, n) > 0 || (other != pid && held(
                    net.fdrefs,
                    other,
                    t as u32,
                ) > 0)) && net.socks[t].state != S_CLOSED && !queued_anywhere(net, t) ==> {
                    &&& after.socks[t].state == net.socks[t].state
                    &&& after.idents[t] == net.idents[t]
                    &&& after.socks[t].rx == net.socks[t].rx
                    &&& net.socks[t].flights.is_prefix_of(after.socks[t].flights)
                }
            &&& forall|t: int|
                0 <= t < MAX_SOCKETS && held(net.fdrefs, pid, t as u32) > 0 && (
                #[trigger] after.socks[t]).refs == 0 ==> after.idents[t] == 0 && ended(
                    after.socks[t].state,
                )
            &&& countable(after, pid, n) ==> has_room(after, pid, list) && after.refs_set(
                pid,
                list,
            ) == after
        }),
{
    let after = net.refs_set(pid, list);
    let n = list.len() as int;
    lemma_in_range_of(net);
    lemma_holds(net, pid, list);
    lemma_set(net, pid, list);
    lemma_added_accounted(net, pid, list, n);
    let b = net.refs_added(pid, list, n);
    let counts = net.holdings(pid);
    assert forall|s: u32| s < MAX_SOCKETS implies counts[s as int] <= #[trigger] held(
        b.fdrefs,
        pid,
        s,
    ) by {
        lemma_occurs(list, s as int, n);
        assert(b.socks[s as int].refs == net.socks[s as int].refs + occurs(list, s as int, n));
    }
    lemma_all_accounted(b, pid, counts, MAX_SOCKETS as int);
    assert forall|t: int, other: u32|
        #![trigger after.socks[t], held(net.fdrefs, other, t as u32)]
        0 <= t < MAX_SOCKETS && (occurs(list, t, n) > 0 || (other != pid && held(
            net.fdrefs,
            other,
            t as u32,
        ) > 0)) && net.socks[t].state != S_CLOSED && !queued_anywhere(net, t) implies {
        &&& after.socks[t].state == net.socks[t].state
        &&& after.idents[t] == net.idents[t]
        &&& after.socks[t].rx == net.socks[t].rx
        &&& net.socks[t].flights.is_prefix_of(after.socks[t].flights)
    } by {
        lemma_not_released(net, pid, list, other, t as u32);
    }
    assert forall|t: int|
        0 <= t < MAX_SOCKETS && held(net.fdrefs, pid, t as u32) > 0 && (
        #[trigger] after.socks[t]).refs == 0 implies after.idents[t] == 0 && ended(
        after.socks[t].state,
    ) by {
        lemma_gone(net, pid, list, t as u32);
    }
    if countable(after, pid, n) {
        lemma_again(net, pid, list);
    }
}

} // verus!
