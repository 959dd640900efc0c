//! What is to come ends a wait.

use vstd::prelude::*;
use super::alarms;
use super::choice;
use super::faults;
use super::schedule;
use super::{
    ProcRec, StateView, ThreadRec, IO_KEY, MAX_PROCS, MAX_THREADS, P_EXITED, P_LIVE,
    T_BLOCKED, T_RUNNABLE,
};
use crate::netstate;
use crate::netstate::traffic;
use crate::netstate::{NetView, MAX_SOCKETS};
use crate::rng;

verus! {

/// Nobody who lives has a crash to come.
pub open spec fn no_crash_to_come(procs: Seq<ProcRec>) -> bool {
    forall|i: int|
        0 <= i < procs.len() ==> !((#[trigger] procs[i]).crash_at != 0 && procs[i].state == P_LIVE
            && !procs[i].killed)
}

/// Process `p` has a timer set.
pub open spec fn has_timer(p: ProcRec) -> bool {
    p.alarm.at != 0 && p.state != P_EXITED && !p.killed
}

proof fn lemma_no_crash(s: StateView, pid: int, n: int)
    requires
        no_crash_to_come(s.procs),
        0 <= pid,
        n <= s.procs.len(),
    ensures
        s.crashes_injected_from(pid, n) == s,
    decreases n - pid,
{
    if pid < n {
        assert(!s.procs[pid].crash_due(s.clock_ns));
        lemma_no_crash(s, pid + 1, n);
    }
}

proof fn lemma_next_crash_none(procs: Seq<ProcRec>, n: int)
    requires
        no_crash_to_come(procs),
        n <= procs.len(),
    ensures
        faults::next_crash_of(procs, n) is None,
    decreases n,
{
    if n > 0 {
        lemma_next_crash_none(procs, n - 1);
        assert(!(procs[n - 1].crash_at != 0 && procs[n - 1].state == P_LIVE && !procs[n
            - 1].killed));
    }
}

proof fn lemma_deadline_of(threads: Seq<ThreadRec>, n: int)
    requires
        0 <= n <= threads.len(),
    ensures
        schedule::next_deadline(threads, n) matches Some(d) ==> exists|i: int|
            0 <= i < n && (#[trigger] threads[i]).state == T_BLOCKED && threads[i].deadline == d && d
                != 0,
        schedule::next_deadline(threads, n) is None ==> forall|i: int|
            0 <= i < n && (#[trigger] threads[i]).state == T_BLOCKED ==> threads[i].deadline == 0,
    decreases n,
{
    if n > 0 {
        lemma_deadline_of(threads, n - 1);
        let before = schedule::next_deadline(threads, n - 1);
        if let Some(d) = before {
            let i = choose|i: int|
                0 <= i < n - 1 && (#[trigger] threads[i]).state == T_BLOCKED && threads[i].deadline
                    == d && d != 0;
            assert(0 <= i < n);
        }
        assert(threads[n - 1].state == T_BLOCKED ==> true);
    }
}

proof fn lemma_alarm_of(procs: Seq<ProcRec>, threads: Seq<ThreadRec>, n: int)
    requires
        0 <= n <= procs.len() <= MAX_PROCS,
    ensures
        alarms::next_alarm_of(procs, threads, n) matches Some(d) ==> exists|p: int|
            0 <= p < n && has_timer(#[trigger] procs[p]) && procs[p].alarm.at == d
                && alarms::blocked_from(threads, p as u32, 0) is Some,
        alarms::next_alarm_of(procs, threads, n) is None ==> forall|p: int|
            0 <= p < n && has_timer(#[trigger] procs[p]) ==> alarms::blocked_from(
                threads,
                p as u32,
                0,
            ) is None,
    decreases n,
{
    if n > 0 {
        lemma_alarm_of(procs, threads, n - 1);
        let before = alarms::next_alarm_of(procs, threads, n - 1);
        if let Some(d) = before {
            let p = choose|p: int|
                0 <= p < n - 1 && has_timer(#[trigger] procs[p]) && procs[p].alarm.at == d
                    && alarms::blocked_from(threads, p as u32, 0) is Some;
            assert(0 <= p < n);
        }
        assert(has_timer(procs[n - 1]) == procs[n - 1].is_timed());
    }
}

proof fn lemma_blocked(threads: Seq<ThreadRec>, pid: u32, i: int, k: int)
    requires
        0 <= i <= k < threads.len(),
        threads[k].pid == pid,
        threads[k].state == T_BLOCKED,
    ensures
        alarms::blocked_from(threads, pid, i) is Some,
    decreases k - i,
{
    if i < k && !(threads[i].pid == pid && threads[i].state == T_BLOCKED) {
        lemma_blocked(threads, pid, i + 1, k);
    }
}

/// Somebody can run.
pub open spec fn somebody(s: StateView) -> bool {
    exists|i: int| 0 <= i < s.threads.len() && (#[trigger] s.threads[i]).state == T_RUNNABLE
}

proof fn lemma_somebody(s: StateView)
    ensures
        somebody(s) <==> s.ready() > 0,
{
    let n = s.threads.len() as int;
    if somebody(s) {
        let i = choose|i: int|
            0 <= i < s.threads.len() && (#[trigger] s.threads[i]).state == T_RUNNABLE;
        choice::lemma_some_ready(s.threads, i, n);
    }
    lemma_ready_some(s.threads, n);
    if s.ready() > 0 {
        let i = choose|i: int|
            0 <= i < n && (#[trigger] s.threads[i]).state == T_RUNNABLE;
        assert(s.threads[i].state == T_RUNNABLE);
    }
}

proof fn lemma_ready_some(threads: Seq<ThreadRec>, n: int)
    requires
        0 <= n <= threads.len(),
    ensures
        schedule::ready(threads, n) > 0 ==> exists|i: int|
            0 <= i < n && (#[trigger] threads[i]).state == T_RUNNABLE,
    decreases n,
{
    if n > 0 {
        lemma_ready_some(threads, n - 1);
        if threads[n - 1].state != T_RUNNABLE && schedule::ready(threads, n) > 0 {
            let i = choose|i: int| 0 <= i < n - 1 && (#[trigger] threads[i]).state == T_RUNNABLE;
            assert(0 <= i < n);
        }
    }
}

/// A thread that could run, or was blocked and had its time come, can run when
/// what is due has happened; where nobody can, the blocked are as they were.
#[verifier::rlimit(40)]
proof fn lemma_caught_up(s: StateView, i: int)
    requires
        s.procs.len() <= MAX_PROCS,
        no_crash_to_come(s.procs),
        0 <= i < s.threads.len(),
    ensures
        ({
            let c = s.caught_up();
            &&& c.threads.len() == s.threads.len()
            &&& c.procs.len() == s.procs.len()
            &&& no_crash_to_come(c.procs)
            &&& c.net == s.net.advanced(s.clock_ns).0
            &&& c.clock_ns == s.clock_ns
            &&& s.threads[i].state == T_RUNNABLE ==> somebody(c)
            &&& s.threads[i].state == T_BLOCKED && s.threads[i].deadline != 0
                && s.threads[i].deadline <= s.clock_ns ==> somebody(c)
            &&& s.threads[i].state == T_BLOCKED && s.threads[i].key == IO_KEY && s.net.advanced(
                s.clock_ns,
            ).1 ==> somebody(c)
            &&& s.threads[i].state == T_BLOCKED ==> somebody(c) || c.threads[i] == s.threads[i]
            &&& s.threads[i].state == T_BLOCKED && s.threads[i].pid < s.procs.len() && has_timer(
                s.procs[s.threads[i].pid as int],
            ) && s.procs[s.threads[i].pid as int].alarm.at <= s.clock_ns ==> somebody(c)
            &&& s.threads[i].state == T_BLOCKED && s.threads[i].pid < s.procs.len() ==> somebody(c)
                || c.procs[s.threads[i].pid as int].alarm
                == s.procs[s.threads[i].pid as int].alarm && has_timer(
                c.procs[s.threads[i].pid as int],
            ) == has_timer(s.procs[s.threads[i].pid as int])
        }),
{
    let m = s.clock_moved();
    assert(m.procs == s.procs);
    lemma_no_crash(m, 0, m.procs.len() as int);
    let e = m.expired();
    let a = e.alarms_rung();
    assert(s.caught_up() == a);
    alarms::lemma_rung_from(e, 0, e.procs.len() as int);
    let t = s.threads[i];
    assert(m.threads[i] == t || m.threads[i] == t.io_woken());
    assert(e.threads[i] == m.threads[i].expired(m.clock_ns));
    assert(a.threads[i] == e.threads[i] || a.threads[i] == e.threads[i].awake());
    assert(no_crash_to_come(a.procs)) by {
        assert forall|k: int| 0 <= k < a.procs.len() implies !((#[trigger] a.procs[k]).crash_at != 0
            && a.procs[k].state == P_LIVE && !a.procs[k].killed) by {
            assert(a.procs[k] == (ProcRec { alarm: a.procs[k].alarm, ..e.procs[k] }));
            assert(!(s.procs[k].crash_at != 0 && s.procs[k].state == P_LIVE
                && !s.procs[k].killed));
        }
    }
    if a.threads[i].state == T_RUNNABLE {
        assert(somebody(a));
    }
    if t.state == T_BLOCKED && t.pid < s.procs.len() && a.threads[i].state != T_RUNNABLE {
        let p = t.pid as int;
        assert(e.threads[i] == t);
        assert(a.procs[p] == (ProcRec { alarm: a.procs[p].alarm, ..e.procs[p] }));
        lemma_blocked(e.threads, t.pid, 0, i);
        if e.procs[p].alarm_due(e.clock_ns) {
            alarms::a_timer_ends_the_wait(e, p, e.procs.len() as int, 0);
            let k = choose|k: int|
                0 <= k < a.threads.len() && (#[trigger] a.threads[k]).state == T_RUNNABLE;
            assert(somebody(a));
        } else {
            lemma_not_rung(e, p, 0, e.procs.len() as int);
        }
    }
}

/// A timer that has not run out stays as it is.
proof fn lemma_not_rung(s: StateView, p: int, pid: int, n: int)
    requires
        0 <= pid,
        0 <= p < s.procs.len(),
        n <= s.procs.len() <= MAX_PROCS,
        !s.procs[p].alarm_due(s.clock_ns),
    ensures
        s.rung_from(pid, n).procs[p] == s.procs[p],
    decreases n - pid,
{
    if pid < n {
        if s.procs[pid].alarm_due(s.clock_ns) {
            let r = s.rung(pid);
            assert(r.procs[p] == s.procs[p]);
            assert(r.clock_ns == s.clock_ns);
            lemma_not_rung(r, p, pid + 1, n);
        } else {
            lemma_not_rung(s, p, pid + 1, n);
        }
    }
}

/// What a thread that is blocked may wait for: a deadline, its process's timer,
/// or the first of what is on its way on the network
pub open spec fn has_something_to_come(s: StateView, i: int) -> bool {
    let t = s.threads[i];
    &&& t.state == T_BLOCKED
    &&& t.pid < s.procs.len()
    &&& {
        ||| t.deadline != 0
        ||| has_timer(s.procs[t.pid as int])
        ||| t.key == IO_KEY && s.net.in_flight > 0
    }
}

/// The network goes by the first arrival, which is on its way to some socket,
/// and somebody waits for it; or nothing is on its way.
pub open spec fn an_arrival_is_awaited(s: StateView) -> bool {
    s.net.in_flight == 0 || {
        &&& s.net.wf()
        &&& exists|j: int|
            0 <= j < MAX_SOCKETS && (#[trigger] s.net.socks[j]).flights.len() > 0
                && s.net.socks[j].flights[0].due == s.net.due
        &&& exists|k: int|
            0 <= k < s.threads.len() && (#[trigger] s.threads[k]).state == T_BLOCKED
                && s.threads[k].key == IO_KEY
    }
}

proof fn lemma_arrives(net: NetView, now: u64, j: int)
    requires
        net.wf(),
        0 <= j < MAX_SOCKETS,
        net.socks[j].flights.len() > 0,
        net.socks[j].flights[0].due == net.due,
        net.due <= now,
        net.in_flight > 0,
    ensures
        net.advanced(now).1,
{
    let started = NetView { now, ..net };
    traffic::lemma_settled_count(started, now, 0);
    let after = started.settled(now, 0);
    netstate::laws::what_arrives_is_due(net, now, j);
    if after.in_flight == net.in_flight {
        assert(after.socks == net.socks);
    }
}

#[verifier::rlimit(40)]
proof fn lemma_step(s: StateView, i: int)
    requires
        s.procs.len() <= MAX_PROCS,
        no_crash_to_come(s.procs),
        an_arrival_is_awaited(s),
        0 <= i < s.threads.len(),
        has_something_to_come(s, i),
        !somebody(s),
        s.net.in_flight > 0 ==> s.net.due > s.clock_ns,
    ensures
        s.next_event() is Some,
        somebody(s.jumped(s.next_event().unwrap())),
{
    let n = s.threads.len() as int;
    let np = s.procs.len() as int;
    lemma_next_crash_none(s.procs, np);
    lemma_deadline_of(s.threads, n);
    lemma_alarm_of(s.procs, s.threads, np);
    let t = s.threads[i];
    let d = schedule::next_deadline(s.threads, n);
    let a = alarms::next_alarm_of(s.procs, s.threads, np);
    let net = s.net.next_due();
    if has_timer(s.procs[t.pid as int]) {
        lemma_blocked(s.threads, t.pid, 0, i);
        assert(a is Some);
    }
    assert(s.next_event() is Some);
    let at = s.next_event().unwrap();
    let c = StateView {
        clock_ns: if s.clock_ns < at {
            at
        } else {
            s.clock_ns
        },
        ..s
    };
    assert(d == Some(at) || net == Some(at) || a == Some(at));
    if d == Some(at) {
        let k = choose|k: int|
            0 <= k < n && (#[trigger] s.threads[k]).state == T_BLOCKED && s.threads[k].deadline
                == at && at != 0;
        lemma_caught_up(c, k);
    } else if net == Some(at) {
        let j = choose|j: int|
            0 <= j < MAX_SOCKETS && (#[trigger] s.net.socks[j]).flights.len() > 0
                && s.net.socks[j].flights[0].due == s.net.due;
        lemma_arrives(s.net, c.clock_ns, j);
        let k = choose|k: int|
            0 <= k < s.threads.len() && (#[trigger] s.threads[k]).state == T_BLOCKED
                && s.threads[k].key == IO_KEY;
        lemma_caught_up(c, k);
    } else {
        let p = choose|p: int|
            0 <= p < np && has_timer(#[trigger] s.procs[p]) && s.procs[p].alarm.at == at
                && alarms::blocked_from(s.threads, p as u32, 0) is Some;
        alarms::lemma_blocked_from(s.threads, p as u32, 0);
        let k = alarms::blocked_from(s.threads, p as u32, 0).unwrap();
        lemma_caught_up(c, k);
    }
}

/// Nobody waits for ever for what is to come: where no crash is in the way, a
/// hand-off finds somebody to run as long as a blocked thread has a deadline,
/// a timer of its process or an arrival to wait for.
#[verifier::rlimit(40)]
pub proof fn what_is_to_come_ends_the_wait(
    s: StateView,
    from: Option<(usize, u32, u64)>,
    site: u64,
    i: int,
)
    requires
        s.threads.len() <= MAX_THREADS,
        s.procs.len() <= MAX_PROCS,
        from matches Some(f) ==> f.0 < s.threads.len(),
        no_crash_to_come(s.procs),
        an_arrival_is_awaited(choice::at_choice(s, from)),
        0 <= i < s.threads.len(),
        has_something_to_come(choice::at_choice(s, from), i),
    ensures
        !(s.handed_off(from, site).1 is Idle),
{
    let start = choice::at_choice(s, from);
    let me = match from {
        Some((id, _, _)) => Some(id as int),
        None => None,
    };
    assert(start.chosen(me, site) == s.handed_off(from, site));
    let c = start.caught_up();
    lemma_caught_up(start, i);
    lemma_somebody(c);
    if !somebody(c) {
        let t = start.threads[i];
        assert(c.threads[i] == t);
        if start.net.in_flight > 0 {
            let j = choose|j: int|
                0 <= j < MAX_SOCKETS && (#[trigger] start.net.socks[j]).flights.len() > 0
                    && start.net.socks[j].flights[0].due == start.net.due;
            let k = choose|k: int|
                0 <= k < start.threads.len() && (#[trigger] start.threads[k]).state == T_BLOCKED
                    && start.threads[k].key == IO_KEY;
            lemma_caught_up(start, k);
            if start.net.due <= start.clock_ns {
                lemma_arrives(start.net, start.clock_ns, j);
            }
            assert(c.net == (NetView { now: start.clock_ns, ..start.net }));
            assert(c.net.socks == start.net.socks);
            assert(c.net.wf());
            assert(c.net.socks[j].flights.len() > 0);
            assert(c.threads[k] == start.threads[k]);
        } else {
            assert(c.net.in_flight == 0);
        }
        assert(has_something_to_come(c, i));
        assert(an_arrival_is_awaited(c));
        lemma_step(c, i);
        let next = c.jumped(c.next_event().unwrap());
        lemma_somebody(next);
        assert(c.waited() == next);
    }
}

/// Every timer that has run out rings when what is due happens: its signal
/// waits for its process.
pub proof fn every_due_timer_rings(s: StateView, p: int)
    requires
        s.wf(),
        0 <= p < s.procs.len(),
        has_timer(s.procs[p]),
        s.procs[p].alarm.at <= s.clock_ns,
    ensures
        s.alarms_rung().pending_of(p as u32)[14],
{
    lemma_rings(s, p, 0, s.procs.len() as int);
}

#[verifier::rlimit(40)]
proof fn lemma_rings(s: StateView, p: int, pid: int, n: int)
    requires
        s.wf(),
        0 <= p < s.procs.len(),
        0 <= pid,
        n <= s.procs.len(),
        s.sig_pending[32 * p + 14] || pid <= p < n && s.procs[p].alarm_due(s.clock_ns),
    ensures
        s.rung_from(pid, n).sig_pending.len() == s.sig_pending.len(),
        s.rung_from(pid, n).sig_pending[32 * p + 14],
        s.rung_from(pid, n).pending_of(p as u32)[14],
    decreases n - pid,
{
    if pid < n {
        if s.procs[pid].alarm_due(s.clock_ns) {
            let r = s.rung(pid);
            assert(r.sig_pending == s.sig_pending.update(32 * pid + 14, true));
            alarms::lemma_blocked_from(s.threads, pid as u32, 0);
            assert(r.threads.len() == s.threads.len());
            assert(r.procs.len() == s.procs.len());
            assert(r.sig_counts.len() == s.sig_counts.len());
            assert(r.kills == s.kills);
            assert(r.wf()) by {
                assert forall|k: int| 0 <= k < r.procs.len() implies (#[trigger] r.procs[k]).wf() by {
                    assert(s.procs[k].wf());
                    assert(r.procs[k].faults == s.procs[k].faults);
                    assert(r.procs[k].crash_at == s.procs[k].crash_at);
                }
            }
            assert(p != pid ==> r.procs[p] == s.procs[p]);
            lemma_rings(r, p, pid + 1, n);
        } else {
            lemma_rings(s, p, pid + 1, n);
        }
    }
}

/// A quantum is drawn evenly from its range, from the run's stream.
pub proof fn a_quantum_is_drawn_from_its_range(s: StateView)
    requires
        s.quantum_lo <= s.quantum_hi,
    ensures
        ({
            let (after, q) = s.quantum_issued();
            let width = s.quantum_hi - s.quantum_lo + 1;
            &&& q == s.quantum_lo + (rng::output(s.rng) as int * width) / 0x1_0000_0000_0000_0000
            &&& s.quantum_lo <= q <= s.quantum_hi
            &&& after.rng == rng::advanced(s.rng)
            &&& after.pending_quantum == q
            &&& after.issued == s.issued.wrapping_add(q as u64)
            &&& after.threads == s.threads
            &&& after.clock_ns == s.clock_ns
        }),
{
    rng::lemma_scaled_below(
        rng::output(s.rng),
        (s.quantum_hi - s.quantum_lo + 1) as u64,
    );
}

} // verus!
