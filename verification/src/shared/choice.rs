//! Who is picked, and what happens to everybody else meanwhile.

use vstd::prelude::*;
use super::alarms;
use super::schedule;
use super::{
    Faults, Handoff, ProcRec, StateView, ThreadRec, MAX_PENDING_KILLS, MAX_PROCS, MAX_THREADS,
    NO_LIMIT, P_LIVE, P_STARTING, T_BLOCKED, T_EXITED, T_RUNNABLE, T_RUNNING,
};
use crate::rng;

verus! {

/// How many of the threads can run
pub open spec fn can_run(threads: Seq<ThreadRec>) -> int {
    threads.filter(|t: ThreadRec| t.state == T_RUNNABLE).len() as int
}

proof fn lemma_can_run(threads: Seq<ThreadRec>, n: int)
    requires
        0 <= n <= threads.len(),
    ensures
        can_run(threads.take(n)) == schedule::ready(threads, n),
    decreases n,
{
    reveal(Seq::filter);
    if n > 0 {
        lemma_can_run(threads, n - 1);
        assert(threads.take(n).drop_last() =~= threads.take(n - 1));
        assert(threads.take(n).last() == threads[n - 1]);
    }
}

proof fn lemma_place(threads: Seq<ThreadRec>, k: int, i: int, n: int)
    requires
        0 <= i <= n,
        n == threads.len(),
        0 <= k < schedule::ready(threads, n) - schedule::ready(threads, i),
    ensures
        ({
            let r = schedule::nth_ready(threads, k, i);
            &&& i <= r < n
            &&& threads[r].state == T_RUNNABLE
            &&& schedule::ready(threads, r) == schedule::ready(threads, i) + k
        }),
    decreases n - i,
{
    schedule::lemma_nth_ready(threads, k, i, n);
    if i < n {
        if threads[i].state != T_RUNNABLE {
            lemma_place(threads, k, i + 1, n);
        } else if k > 0 {
            lemma_place(threads, k - 1, i + 1, n);
        }
    }
}

pub(super) proof fn lemma_some_ready(threads: Seq<ThreadRec>, i: int, n: int)
    requires
        0 <= i < n <= threads.len(),
        threads[i].state == T_RUNNABLE,
    ensures
        schedule::ready(threads, n) > 0,
    decreases n,
{
    if i < n - 1 {
        lemma_some_ready(threads, i, n - 1);
    } else {
        schedule::lemma_ready_bound(threads, n - 1);
    }
}

proof fn lemma_none_ready(threads: Seq<ThreadRec>, i: int, n: int)
    requires
        0 <= n <= threads.len(),
        schedule::ready(threads, n) <= 0,
        0 <= i < n,
    ensures
        threads[i].state != T_RUNNABLE,
{
    if threads[i].state == T_RUNNABLE {
        lemma_some_ready(threads, i, n);
    }
}

proof fn lemma_replaced(threads: Seq<ThreadRec>, at: int, t: ThreadRec, n: int)
    requires
        0 <= at < threads.len(),
        0 <= n <= threads.len(),
        threads[at].state == T_RUNNABLE,
        t.state != T_RUNNABLE,
    ensures
        schedule::ready(threads.update(at, t), n) == schedule::ready(threads, n) - (if at < n {
            1int
        } else {
            0
        }),
    decreases n,
{
    if n > 0 {
        lemma_replaced(threads, at, t, n - 1);
    }
}

/// Every place among those that can run comes up with some draw.
pub proof fn every_place_comes_up(n: int, k: int)
    requires
        0 <= k < n <= MAX_THREADS,
    ensures
        exists|x: u64| #[trigger] (x as int * n) / 0x1_0000_0000_0000_0000 == k,
{
    let m: int = 0x1_0000_0000_0000_0000;
    let x = (k * m + n - 1) / n;
    assert(k * m <= x * n < k * m + n) by (nonlinear_arith)
        requires
            x == (k * m + n - 1) / n,
            0 <= k < n,
            m > 0,
    {
    }
    assert(x * n < m * n) by (nonlinear_arith)
        requires
            x * n < k * m + n,
            0 <= k < n <= 0x10000,
            m == 0x1_0000_0000_0000_0000int,
            x == (k * m + n - 1) / n,
    {
        assert(k * m <= (n - 1) * m);
        assert(n < m);
    }
    assert(0 <= x < m) by (nonlinear_arith)
        requires
            x * n < m * n,
            0 <= k * m <= x * n,
            n > 0,
    {
    }
    assert((x * n) / m == k) by (nonlinear_arith)
        requires
            k * m <= x * n < k * m + n,
            0 < n < m,
    {
    }
    let y = x as u64;
    assert((y as int * n) / 0x1_0000_0000_0000_0000 == k);
}

/// What became of a thread while time passed, in a process that was killed or
/// was not
pub open spec fn became(before: ThreadRec, after: ThreadRec, killed: bool) -> bool {
    &&& after.pid == before.pid
    &&& after.park == before.park
    &&& after.state == before.state || after.state == T_EXITED && killed || before.state
        == T_BLOCKED && after.state == T_RUNNABLE
    &&& after.state == T_BLOCKED ==> after == before
    &&& after.state == T_RUNNABLE && before.state == T_RUNNABLE ==> after == before
}

/// What became of a process
pub open spec fn lived(before: ProcRec, after: ProcRec) -> bool {
    &&& before.killed ==> after.killed
    &&& after.state == before.state
    &&& after.host == before.host
    &&& after.parent == before.parent
}

pub open spec fn threads_went_on(before: StateView, after: StateView) -> bool {
    &&& before.threads.len() <= after.threads.len()
    &&& before.procs.len() <= after.procs.len()
    &&& forall|i: int|
        0 <= i < before.threads.len() ==> became(
            #[trigger] before.threads[i],
            after.threads[i],
            after.threads[i].pid < after.procs.len()
                && after.procs[after.threads[i].pid as int].killed,
        )
    &&& forall|i: int| 0 <= i < before.procs.len() ==> lived(
        #[trigger] before.procs[i],
        after.procs[i],
    )
}

/// The streams went on as they were, or started over.
pub open spec fn streams_went_on(before: StateView, after: StateView) -> bool {
    &&& before.reseeded ==> after.reseeded
    &&& after.reseed_with == before.reseed_with
    &&& after.rng == (if after.reseeded == before.reseeded {
        before.rng
    } else {
        rng::expanded(before.reseed_with)
    })
    &&& after.quantum_lo == before.quantum_lo
    &&& after.quantum_hi == before.quantum_hi
    &&& after.issued == before.issued
    &&& after.switches == before.switches
    &&& after.trace_hash == before.trace_hash
    &&& after.switch_ns == before.switch_ns
    &&& after.current == before.current
}

#[verifier::opaque]
pub open spec fn went_on(before: StateView, after: StateView) -> bool {
    &&& threads_went_on(before, after)
    &&& streams_went_on(before, after)
    &&& before.clock_ns <= after.clock_ns
    &&& before.procs.len() <= MAX_PROCS ==> after.procs.len() <= MAX_PROCS
    &&& before.threads.len() <= MAX_THREADS ==> after.threads.len() <= MAX_THREADS
}

proof fn lemma_transitive(a: StateView, b: StateView, c: StateView)
    requires
        went_on(a, b),
        went_on(b, c),
    ensures
        went_on(a, c),
{
    reveal(went_on);
    assert forall|i: int| 0 <= i < a.threads.len() implies became(
        #[trigger] a.threads[i],
        c.threads[i],
        c.threads[i].pid < c.procs.len() && c.procs[c.threads[i].pid as int].killed,
    ) by {
        assert(became(
            b.threads[i],
            c.threads[i],
            c.threads[i].pid < c.procs.len() && c.procs[c.threads[i].pid as int].killed,
        ));
        if b.threads[i].pid < b.procs.len() {
            assert(lived(b.procs[b.threads[i].pid as int], c.procs[b.threads[i].pid as int]));
        }
    }
    assert forall|i: int| 0 <= i < a.procs.len() implies lived(
        #[trigger] a.procs[i],
        c.procs[i],
    ) by {
        assert(lived(b.procs[i], c.procs[i]));
    }
}

/// The part of a crash before the next life
pub open spec fn struck(s: StateView, pid: int) -> StateView {
    let s = s.retired(pid as u32);
    let s = s.with_proc(pid, ProcRec { killed: true, crash_at: 0, ..s.procs[pid] });
    s.hung_up(pid as u32).parent_woken(pid).loss_noted(pid)
}

#[verifier::rlimit(40)]
pub(super) proof fn lemma_struck(s: StateView, pid: int)
    requires
        0 <= pid < s.procs.len() <= MAX_PROCS,
    ensures
        went_on(s, struck(s, pid)),
        struck(s, pid).clock_ns == s.clock_ns,
        struck(s, pid).procs.len() == s.procs.len(),
        struck(s, pid).procs[pid].killed,
        struck(s, pid).kills == s.kills,
        forall|i: int|
            0 <= i < s.procs.len() && i != pid ==> (#[trigger] struck(s, pid).procs[i]) == (
            ProcRec { dead_child: struck(s, pid).procs[i].dead_child, ..s.procs[i] }),
        struck(s, pid).procs[pid] == (ProcRec {
            killed: true,
            crash_at: 0,
            dead_child: struck(s, pid).procs[pid].dead_child,
            ..s.procs[pid]
        }),
        struck(s, pid).fault_rng == s.fault_rng,
        struck(s, pid).threads.len() == s.threads.len(),
        struck(s, pid).restarts == s.restarts,
{
    reveal(went_on);
    let a = s.retired(pid as u32);
    let b = a.with_proc(pid, ProcRec { killed: true, crash_at: 0, ..a.procs[pid] });
    assert(went_on(s, b)) by {
        assert forall|i: int| 0 <= i < s.threads.len() implies became(
            #[trigger] s.threads[i],
            b.threads[i],
            b.threads[i].pid < b.procs.len() && b.procs[b.threads[i].pid as int].killed,
        ) by {
            assert(b.threads[i] == s.threads[i].retired(pid as u32));
        }
    }
    let c = b.hung_up(pid as u32);
    assert(went_on(b, c));
    let d = c.parent_woken(pid);
    assert(went_on(c, d));
    let e = d.loss_noted(pid);
    assert(went_on(d, e));
    lemma_transitive(s, b, c);
    lemma_transitive(s, c, d);
    lemma_transitive(s, d, e);
}

#[verifier::rlimit(40)]
pub(super) proof fn lemma_restart(s: StateView, pid: int)
    requires
        0 <= pid < s.procs.len() <= MAX_PROCS,
    ensures
        went_on(s, s.restart_registered(pid)),
        s.restart_registered(pid).clock_ns == s.clock_ns,
        s.restart_registered(pid).kills == s.kills,
        forall|i: int|
            0 <= i < s.procs.len() ==> (#[trigger] s.restart_registered(pid).procs[i]) == (
            ProcRec { replaced_by: s.restart_registered(pid).procs[i].replaced_by, ..s.procs[i] }),
        s.restart_registered(pid).procs.len() > s.procs.len() ==> s.restart_registered(pid).procs.len()
            == s.procs.len() + 1 && s.restart_registered(pid).procs.last().state
            == P_STARTING,
{
    reveal(went_on);
    let r = s.restart_registered(pid);
    if !s.stays_dead(pid) {
        assert(forall|i: int| 0 <= i < s.threads.len() ==> r.threads[i] == #[trigger] s.threads[i]);
        assert(forall|i: int|
            0 <= i < s.procs.len() && i != pid ==> r.procs[i] == #[trigger] s.procs[i]);
    }
}

#[verifier::rlimit(40)]
proof fn lemma_condemned(s: StateView, pid: int)
    requires
        0 <= pid < s.procs.len() <= MAX_PROCS,
    ensures
        went_on(s, s.condemned(pid)),
        s.condemned(pid).clock_ns == s.clock_ns,
        s.condemned(pid).procs.len() <= MAX_PROCS,
        s.condemned(pid).procs[pid].killed,
        s.condemned(pid).kills == s.kills.push(s.procs[pid].real_pid),
        forall|i: int|
            0 <= i < s.procs.len() && i != pid ==> (#[trigger] s.condemned(pid).procs[i]).crash_at
                == s.procs[i].crash_at && s.condemned(pid).procs[i].killed == s.procs[i].killed
                && s.condemned(pid).procs[i].state == s.procs[i].state,
        forall|i: int|
            s.procs.len() <= i < s.condemned(pid).procs.len() ==> (#[trigger] s.condemned(
                pid,
            ).procs[i]).state == P_STARTING,
{
    let p = s.procs[pid];
    let left = if p.faults.crashes_left == NO_LIMIT {
        NO_LIMIT
    } else {
        (p.faults.crashes_left - 1) as u32
    };
    let faults = Faults { crashes_left: left, ..p.faults };
    let a = s.with_proc(pid, ProcRec { faults, crash_at: 0, ..p });
    assert(went_on(s, a)) by {
        reveal(went_on);
    }
    let b = struck(a, pid);
    lemma_struck(a, pid);
    lemma_restart(b, pid);
    lemma_transitive(s, a, b);
    let c = a.crashed(pid);
    assert(c == b || c == b.restart_registered(pid));
    if c != b {
        lemma_transitive(s, b, c);
    }
    let d = s.condemned(pid);
    assert(went_on(s, d)) by {
        reveal(went_on);
        assert(d.procs == c.procs && d.threads == c.threads);
    }
    assert forall|i: int| 0 <= i < s.procs.len() && i != pid implies (#[trigger] d.procs[i]).crash_at
        == s.procs[i].crash_at && d.procs[i].killed == s.procs[i].killed && d.procs[i].state
        == s.procs[i].state by {
        assert(a.procs[i] == s.procs[i]);
        assert(b.procs[i].crash_at == a.procs[i].crash_at);
        assert(c.procs[i].crash_at == b.procs[i].crash_at);
    }
    assert(c.procs[pid].killed == b.procs[pid].killed);
}

/// Its time to crash has come.
pub open spec fn must_crash(p: ProcRec, now: u64) -> bool {
    p.crash_at != 0 && p.crash_at <= now && p.state == P_LIVE && !p.killed
}

#[verifier::rlimit(40)]
proof fn lemma_injected(s: StateView, pid: int, n: int)
    requires
        0 <= pid,
        n <= s.procs.len() <= MAX_PROCS,
    ensures
        went_on(s, s.crashes_injected_from(pid, n)),
        s.crashes_injected_from(pid, n).clock_ns == s.clock_ns,
        s.crashes_injected_from(pid, n).kills.len() < MAX_PENDING_KILLS ==> forall|i: int|
            pid <= i < n ==> !must_crash(
                #[trigger] s.crashes_injected_from(pid, n).procs[i],
                s.clock_ns,
            ),
        forall|i: int|
            0 <= i < s.procs.len() && !must_crash(s.procs[i], s.clock_ns) && !s.procs[i].killed
                ==> !(#[trigger] s.crashes_injected_from(pid, n).procs[i]).killed,
        forall|i: int|
            0 <= i < pid ==> (#[trigger] s.crashes_injected_from(pid, n).procs[i]).crash_at
                == s.procs[i].crash_at && s.crashes_injected_from(pid, n).procs[i].killed
                == s.procs[i].killed && s.crashes_injected_from(pid, n).procs[i].state
                == s.procs[i].state,
        forall|i: int|
            s.procs.len() <= i < s.crashes_injected_from(pid, n).procs.len() ==> (
            #[trigger] s.crashes_injected_from(pid, n).procs[i]).state == P_STARTING,
    decreases n - pid,
{
    if pid < n {
        if !s.procs[pid].crash_due(s.clock_ns) {
            lemma_injected(s, pid + 1, n);
        } else if s.kills.len() < MAX_PENDING_KILLS {
            let c = s.condemned(pid);
            lemma_condemned(s, pid);
            assert(n <= c.procs.len()) by {
                reveal(went_on);
            }
            lemma_injected(c, pid + 1, n);
            let e = c.crashes_injected_from(pid + 1, n);
            lemma_transitive(s, c, e);
            assert forall|i: int|
                s.procs.len() <= i < e.procs.len() implies (#[trigger] e.procs[i]).state
                == P_STARTING by {
                reveal(went_on);
                if i < c.procs.len() {
                    assert(c.procs[i].state == P_STARTING);
                    assert(lived(c.procs[i], e.procs[i]));
                }
            }
        } else {
            reveal(went_on);
        }
    } else {
        reveal(went_on);
    }
}

/// Once what is due has happened, no deadline is behind the clock.
pub open spec fn none_overdue(s: StateView) -> bool {
    forall|i: int|
        0 <= i < s.threads.len() && (#[trigger] s.threads[i]).state == T_BLOCKED
            && s.threads[i].deadline != 0 ==> s.clock_ns < s.threads[i].deadline
}

/// Nor is a crash, as long as there is room to tell of it.
pub open spec fn none_to_crash(s: StateView) -> bool {
    s.kills.len() < MAX_PENDING_KILLS ==> forall|i: int|
        0 <= i < s.procs.len() ==> !must_crash(#[trigger] s.procs[i], s.clock_ns)
}

#[verifier::rlimit(40)]
proof fn lemma_caught_up(s: StateView)
    requires
        s.procs.len() <= MAX_PROCS,
    ensures
        went_on(s, s.caught_up()),
        s.caught_up().clock_ns == s.clock_ns,
        none_overdue(s.caught_up()),
        none_to_crash(s.caught_up()),
        forall|i: int|
            0 <= i < s.procs.len() && !must_crash(s.procs[i], s.clock_ns) && !s.procs[i].killed
                ==> !(#[trigger] s.caught_up().procs[i]).killed,
{
    let m = s.clock_moved();
    let c = m.due_crashes_injected();
    let e = c.expired();
    let a = e.alarms_rung();
    lemma_clock_moved(s);
    lemma_injected(m, 0, m.procs.len() as int);
    lemma_transitive(s, m, c);
    lemma_expired(c);
    lemma_transitive(s, c, e);
    lemma_rung(e);
    lemma_transitive(s, e, a);
    assert forall|i: int|
        0 <= i < s.procs.len() && !must_crash(s.procs[i], s.clock_ns)
            && !s.procs[i].killed implies !(#[trigger] a.procs[i]).killed by {
        assert(!c.procs[i].killed);
        assert(c.procs.len() >= m.procs.len()) by {
            reveal(went_on);
        }
    }
    assert(none_to_crash(a)) by {
        if a.kills.len() < MAX_PENDING_KILLS {
            assert forall|i: int| 0 <= i < a.procs.len() implies !must_crash(
                #[trigger] a.procs[i],
                a.clock_ns,
            ) by {
                if i < m.procs.len() {
                    assert(!must_crash(c.procs[i], m.clock_ns));
                } else {
                    assert(c.procs[i].state == P_STARTING);
                }
            }
        }
    }
}

proof fn lemma_clock_moved(s: StateView)
    ensures
        went_on(s, s.clock_moved()),
        s.clock_moved().procs == s.procs,
        s.clock_moved().clock_ns == s.clock_ns,
        s.clock_moved().kills == s.kills,
{
    reveal(went_on);
}

proof fn lemma_expired(c: StateView)
    ensures
        went_on(c, c.expired()),
        none_overdue(c.expired()),
        c.expired().procs == c.procs,
        c.expired().clock_ns == c.clock_ns,
        c.expired().kills == c.kills,
{
    reveal(went_on);
    let e = c.expired();
    assert forall|i: int| 0 <= i < c.threads.len() implies became(
        #[trigger] c.threads[i],
        e.threads[i],
        e.threads[i].pid < e.procs.len() && e.procs[e.threads[i].pid as int].killed,
    ) by {
        assert(e.threads[i] == c.threads[i].expired(c.clock_ns));
    }
    assert forall|i: int|
        0 <= i < e.threads.len() && (#[trigger] e.threads[i]).state == T_BLOCKED
            && e.threads[i].deadline != 0 implies e.clock_ns < e.threads[i].deadline by {
        assert(e.threads[i] == c.threads[i].expired(c.clock_ns));
    }
}

#[verifier::rlimit(40)]
proof fn lemma_rung(e: StateView)
    ensures
        went_on(e, e.alarms_rung()),
        e.alarms_rung().clock_ns == e.clock_ns,
        e.alarms_rung().kills == e.kills,
        e.alarms_rung().procs.len() == e.procs.len(),
        none_overdue(e) ==> none_overdue(e.alarms_rung()),
        forall|i: int|
            0 <= i < e.procs.len() ==> (#[trigger] e.alarms_rung().procs[i]).crash_at
                == e.procs[i].crash_at && e.alarms_rung().procs[i].state == e.procs[i].state
                && e.alarms_rung().procs[i].killed == e.procs[i].killed,
{
    let a = e.alarms_rung();
    alarms::lemma_rung_from(e, 0, e.procs.len() as int);
    reveal(went_on);
    assert forall|i: int| 0 <= i < e.threads.len() implies became(
        #[trigger] e.threads[i],
        a.threads[i],
        a.threads[i].pid < a.procs.len() && a.procs[a.threads[i].pid as int].killed,
    ) by {
        assert(a.threads[i] == e.threads[i] || a.threads[i] == e.threads[i].awake());
    }
    assert forall|i: int| 0 <= i < e.procs.len() implies lived(
        #[trigger] e.procs[i],
        a.procs[i],
    ) && a.procs[i].crash_at == e.procs[i].crash_at by {
        assert(a.procs[i] == (ProcRec { alarm: a.procs[i].alarm, ..e.procs[i] }));
    }
    if none_overdue(e) {
        assert forall|i: int|
            0 <= i < a.threads.len() && (#[trigger] a.threads[i]).state == T_BLOCKED
                && a.threads[i].deadline != 0 implies a.clock_ns < a.threads[i].deadline by {
            assert(a.threads[i] == e.threads[i] || a.threads[i] == e.threads[i].awake());
            assert(e.threads[i].state == T_BLOCKED);
        }
    }
}

proof fn lemma_deadline_first(threads: Seq<ThreadRec>, n: int, i: int)
    requires
        0 <= i < n <= threads.len(),
        threads[i].state == T_BLOCKED,
        threads[i].deadline != 0,
    ensures
        schedule::next_deadline(threads, n) matches Some(d) && d <= threads[i].deadline,
    decreases n,
{
    if i < n - 1 {
        lemma_deadline_first(threads, n - 1, i);
    }
}

/// The clock has not gone past anybody's deadline, but for those whose process
/// was killed.
pub open spec fn none_overslept(before: StateView, after: StateView) -> bool {
    forall|i: int|
        0 <= i < before.threads.len() && (#[trigger] before.threads[i]).state == T_BLOCKED
            && before.threads[i].deadline != 0 && after.threads[i].state != T_EXITED
            ==> after.clock_ns <= before.clock_ns || after.clock_ns <= before.threads[i].deadline
}

#[verifier::rlimit(40)]
proof fn lemma_waited(s: StateView)
    requires
        s.procs.len() <= MAX_PROCS,
        none_overdue(s),
        none_to_crash(s),
    ensures
        went_on(s, s.waited()),
        none_overdue(s.waited()),
        none_to_crash(s.waited()),
        s.ready() <= 0 ==> none_overslept(s, s.waited()),
    decreases
            MAX_PENDING_KILLS - s.kills.len(),
            s.net.in_flight,
            (if s.due_is_exact() {
                0int
            } else {
                1int
            }),
{
    match s.next_event() {
        None => {
            assert(s.waited() == s);
            assert(went_on(s, s)) by {
                reveal(went_on);
            }
        },
        Some(at) => {
            let next = s.jumped(at);
            let c = StateView {
                clock_ns: if s.clock_ns < at {
                    at
                } else {
                    s.clock_ns
                },
                ..s
            };
            assert(went_on(s, c)) by {
                reveal(went_on);
            }
            lemma_caught_up(c);
            lemma_transitive(s, c, next);
            let last = s.waited();
            let stops = next.ready() > 0 || !next.has_moved_on_from(s)
                || !next.has_less_to_come_than(s);
            if stops {
                assert(last == next);
            } else {
                assert(next.procs.len() <= MAX_PROCS) by {
                    reveal(went_on);
                }
                lemma_waited(next);
                assert(last == next.waited());
                lemma_transitive(s, next, last);
            }
            if s.ready() <= 0 {
                assert forall|i: int|
                    0 <= i < s.threads.len() && (#[trigger] s.threads[i]).state == T_BLOCKED
                        && s.threads[i].deadline != 0 && last.threads[i].state
                        != T_EXITED implies last.clock_ns <= s.clock_ns || last.clock_ns
                    <= s.threads[i].deadline by {
                    reveal(went_on);
                    lemma_deadline_first(s.threads, s.threads.len() as int, i);
                    let d = s.threads[i].deadline;
                    assert(at <= d);
                    assert(next.clock_ns == c.clock_ns);
                    if !stops {
                        assert(became(
                            next.threads[i],
                            last.threads[i],
                            last.threads[i].pid < last.procs.len()
                                && last.procs[last.threads[i].pid as int].killed,
                        ));
                        lemma_none_ready(next.threads, i, next.threads.len() as int);
                        assert(became(
                            s.threads[i],
                            next.threads[i],
                            next.threads[i].pid < next.procs.len()
                                && next.procs[next.threads[i].pid as int].killed,
                        ));
                        assert(next.threads[i].state == T_BLOCKED);
                        assert(next.threads[i] == s.threads[i]);
                    }
                }
            }
        },
    }
}

/// The next holder of the baton is the one whose place among those that can
/// run was drawn: of `n` of them the one with as many before it as the draw,
/// scaled from its range to `n`, comes to. The draw is the next output of the
/// run's stream, and nobody is picked only where nobody can run.
pub proof fn the_draw_decides(s: StateView)
    requires
        s.threads.len() <= MAX_THREADS,
        s.procs.len() <= MAX_PROCS,
    ensures
        ({
            let (after, who) = s.picked();
            let stream = if after.reseeded == s.reseeded {
                s.rng
            } else {
                rng::expanded(s.reseed_with)
            };
            let n = can_run(after.threads);
            match who {
                None => n == 0 && after.rng == stream,
                Some(t) => {
                    &&& 0 <= t < after.threads.len()
                    &&& after.threads[t].state == T_RUNNABLE
                    &&& can_run(after.threads.take(t)) == (rng::output(stream) as int * n)
                        / 0x1_0000_0000_0000_0000
                    &&& after.rng == rng::advanced(stream)
                },
            }
        }),
{
    lemma_picked(s);
}

/// The state in which the draw is made
pub open spec fn settled_for(s: StateView) -> StateView {
    let c = s.caught_up();
    if c.ready() > 0 {
        c
    } else {
        c.waited()
    }
}

#[verifier::rlimit(40)]
proof fn lemma_settled_for(s: StateView)
    requires
        s.procs.len() <= MAX_PROCS,
    ensures
        went_on(s, settled_for(s)),
        none_overdue(settled_for(s)),
        none_to_crash(settled_for(s)),
        none_overslept(s, settled_for(s)),
        s.caught_up().ready() > 0 ==> settled_for(s).clock_ns == s.clock_ns,
{
    let c = s.caught_up();
    lemma_caught_up(s);
    if c.ready() <= 0 {
        assert(c.procs.len() <= MAX_PROCS) by {
            reveal(went_on);
        }
        lemma_waited(c);
        let w = c.waited();
        lemma_transitive(s, c, w);
        assert(none_overslept(s, w)) by {
            reveal(went_on);
            assert forall|i: int|
                0 <= i < s.threads.len() && (#[trigger] s.threads[i]).state == T_BLOCKED
                    && s.threads[i].deadline != 0 && w.threads[i].state != T_EXITED implies w.clock_ns
                <= s.clock_ns || w.clock_ns <= s.threads[i].deadline by {
                lemma_none_ready(c.threads, i, c.threads.len() as int);
                assert(became(
                    c.threads[i],
                    w.threads[i],
                    w.threads[i].pid < w.procs.len() && w.procs[w.threads[i].pid as int].killed,
                ));
                assert(c.threads[i].state == T_BLOCKED);
                assert(c.threads[i] == s.threads[i]);
            }
        }
    }
}

#[verifier::rlimit(40)]
proof fn lemma_picked(s: StateView)
    requires
        s.threads.len() <= MAX_THREADS,
        s.procs.len() <= MAX_PROCS,
    ensures
        ({
            let (after, who) = s.picked();
            let f = settled_for(s);
            let n = can_run(after.threads);
            &&& after == (StateView { rng: after.rng, ..f })
            &&& n == f.ready()
            &&& n <= MAX_THREADS
            &&& match who {
                None => n == 0 && after.rng == f.rng,
                Some(t) => {
                    &&& n > 0
                    &&& 0 <= t < after.threads.len()
                    &&& after.threads[t].state == T_RUNNABLE
                    &&& can_run(after.threads.take(t)) == (rng::output(f.rng) as int * n)
                        / 0x1_0000_0000_0000_0000
                    &&& after.rng == rng::advanced(f.rng)
                },
            }
            &&& f.rng == (if after.reseeded == s.reseeded {
                s.rng
            } else {
                rng::expanded(s.reseed_with)
            })
        }),
{
    let f = settled_for(s);
    lemma_settled_for(s);
    assert(streams_went_on(s, f) && f.threads.len() <= MAX_THREADS) by {
        reveal(went_on);
    }
    let (after, who) = s.picked();
    let n = f.threads.len() as int;
    lemma_can_run(f.threads, n);
    assert(f.threads.take(n) =~= f.threads);
    schedule::lemma_ready_bound(f.threads, n);
    if f.ready() > 0 {
        let k = rng::scaled(rng::output(f.rng), f.ready() as u64);
        rng::lemma_scaled_below(rng::output(f.rng), f.ready() as u64);
        lemma_place(f.threads, k, 0, n);
        let t = schedule::nth_ready(f.threads, k, 0);
        lemma_can_run(f.threads, t);
    }
}

/// The state in which the choice is made: the caller's new state is recorded,
/// and the hand-off has taken its time.
pub open spec fn at_choice(s: StateView, from: Option<(usize, u32, u64)>) -> StateView {
    match from {
        Some((id, state, key)) => StateView {
            clock_ns: s.clock_ns.wrapping_add(s.switch_ns),
            threads: s.threads.update(
                id as int,
                ThreadRec { state, key, ..s.threads[id as int] },
            ),
            ..s
        },
        None => s,
    }
}

/// Handing the baton on draws twice from the run's stream: the first draw
/// decides who has it next, the second for how long. Whoever has it runs; the
/// rest of those that can run still can, and are as many as they were but for
/// that one.
pub proof fn a_hand_off_goes_by_two_draws(s: StateView, from: Option<(usize, u32, u64)>, site: u64)
    requires
        s.threads.len() <= MAX_THREADS,
        s.procs.len() <= MAX_PROCS,
        s.quantum_lo <= s.quantum_hi,
        from matches Some(f) ==> f.0 < s.threads.len(),
    ensures
        ({
            let (after, h) = s.handed_off(from, site);
            let stream = if after.reseeded == s.reseeded {
                s.rng
            } else {
                rng::expanded(s.reseed_with)
            };
            let to = match h {
                Handoff::Stay => from->Some_0.0 as int,
                Handoff::Switch { to, .. } => to as int,
                Handoff::Idle => 0,
            };
            let n = can_run(after.threads) + 1;
            let quanta = after.quantum_hi - after.quantum_lo + 1;
            if h is Idle {
                can_run(after.threads) == 0 && after.rng == stream && after.current == s.current
            } else {
                &&& h is Stay ==> from is Some && after.switches == s.switches && after.trace_hash
                    == s.trace_hash && after.current == s.current
                &&& h is Switch ==> after.current == to
                &&& h is Switch && from is Some ==> to != from->Some_0.0 && after.switches
                    == s.switches.wrapping_add(1)
                &&& 0 <= to < after.threads.len()
                &&& after.threads[to].state == T_RUNNING
                &&& can_run(after.threads.take(to)) == (rng::output(stream) as int * n)
                    / 0x1_0000_0000_0000_0000
                &&& after.pending_quantum == after.quantum_lo + (rng::output(
                    rng::advanced(stream),
                ) as int * quanta) / 0x1_0000_0000_0000_0000
                &&& after.issued == s.issued.wrapping_add(after.pending_quantum as u64)
                &&& after.rng == rng::advanced(rng::advanced(stream))
                &&& after.quantum_lo == s.quantum_lo
                &&& after.quantum_hi == s.quantum_hi
            }
        }),
{
    lemma_handed(s, from, site);
}

spec fn to_of(h: Handoff, from: Option<(usize, u32, u64)>) -> int {
    match h {
        Handoff::Stay => from->Some_0.0 as int,
        Handoff::Switch { to, .. } => to as int,
        Handoff::Idle => 0,
    }
}

#[verifier::rlimit(40)]
proof fn lemma_handed(s: StateView, from: Option<(usize, u32, u64)>, site: u64)
    requires
        s.threads.len() <= MAX_THREADS,
        s.procs.len() <= MAX_PROCS,
        s.quantum_lo <= s.quantum_hi,
        from matches Some(f) ==> f.0 < s.threads.len(),
    ensures
        ({
            let (after, h) = s.handed_off(from, site);
            let start = at_choice(s, from);
            let f = settled_for(start);
            let to = to_of(h, from);
            let n = can_run(after.threads) + 1;
            let quanta = after.quantum_hi - after.quantum_lo + 1;
            &&& went_on(start, f)
            &&& f.rng == (if after.reseeded == s.reseeded {
                s.rng
            } else {
                rng::expanded(s.reseed_with)
            })
            &&& after.procs == f.procs
            &&& after.clock_ns == f.clock_ns
            &&& after.kills == f.kills
            &&& after.net == f.net
            &&& h is Idle ==> after == f && can_run(f.threads) == 0
            &&& !(h is Idle) ==> {
                &&& h is Stay ==> from is Some && after.switches == s.switches && after.trace_hash
                    == s.trace_hash && after.current == s.current
                &&& h is Switch ==> after.current == to
                &&& h is Switch && from is Some ==> to != from->Some_0.0 && after.switches
                    == s.switches.wrapping_add(1)
                &&& 0 <= to < f.threads.len() == after.threads.len()
                &&& f.threads[to].state == T_RUNNABLE
                &&& after.threads[to].state == T_RUNNING
                &&& after.threads[to].pid == f.threads[to].pid
                &&& forall|i: int|
                    0 <= i < f.threads.len() && i != to ==> #[trigger] after.threads[i]
                        == f.threads[i]
                &&& can_run(after.threads.take(to)) == (rng::output(f.rng) as int * n)
                    / 0x1_0000_0000_0000_0000
                &&& after.pending_quantum == after.quantum_lo + (rng::output(
                    rng::advanced(f.rng),
                ) as int * quanta) / 0x1_0000_0000_0000_0000
                &&& after.issued == s.issued.wrapping_add(after.pending_quantum as u64)
                &&& after.rng == rng::advanced(rng::advanced(f.rng))
                &&& after.quantum_lo == s.quantum_lo
                &&& after.quantum_hi == s.quantum_hi
            }
            &&& h is Idle ==> after.current == s.current
        }),
{
    let start = at_choice(s, from);
    let me = match from {
        Some((id, _, _)) => Some(id as int),
        None => None,
    };
    let (after, h) = s.handed_off(from, site);
    assert(start.chosen(me, site) == (after, h));
    let f = settled_for(start);
    lemma_settled_for(start);
    assert(streams_went_on(start, f)) by {
        reveal(went_on);
    }
    assert(start.threads.len() == s.threads.len());
    lemma_picked(start);
    let (p, who) = start.picked();
    assert(p.reseeded == f.reseeded);
    if let Some(to) = who {
        let len = f.threads.len() as int;
        let q = p.quantum_issued().0;
        let t = ThreadRec { state: T_RUNNING, ..f.threads[to] };
        let r = q.with_thread(to, t);
        let given = ThreadRec { park: t.park.wrapping_add(1), ..t };
        assert(r.threads.update(to, given) =~= f.threads.update(to, given));
        assert(f.threads.len() <= MAX_THREADS) by {
            reveal(went_on);
        }
        assert(to as usize == to);
        let quanta = s.quantum_hi - s.quantum_lo + 1;
        rng::lemma_scaled_below(rng::output(p.rng), quanta as u64);
        assert(after.threads == f.threads.update(to, t) || after.threads == f.threads.update(
            to,
            given,
        ));
        let last = after.threads[to];
        assert(after.threads =~= f.threads.update(to, last));
        lemma_replaced(f.threads, to, last, len);
        lemma_replaced(f.threads, to, last, to);
        lemma_can_run(after.threads, len);
        lemma_can_run(after.threads, to);
        lemma_can_run(f.threads, to);
        assert(after.threads.take(len) =~= after.threads);
    }
}

/// While the baton is handed on, a thread that can run stays able to, unless
/// its process is killed or it is the one that runs next; one that is blocked
/// stays as it was or can run.
#[verifier::rlimit(40)]
pub proof fn nobody_is_forgotten(
    s: StateView,
    from: Option<(usize, u32, u64)>,
    site: u64,
    i: int,
)
    requires
        s.threads.len() <= MAX_THREADS,
        s.procs.len() <= MAX_PROCS,
        s.quantum_lo <= s.quantum_hi,
        from matches Some(f) ==> f.0 < s.threads.len(),
        0 <= i < s.threads.len(),
        s.threads[i].pid < s.procs.len(),
    ensures
        ({
            let (after, h) = s.handed_off(from, site);
            let state = if from is Some && from->Some_0.0 == i {
                from->Some_0.1
            } else {
                s.threads[i].state
            };
            let t = after.threads[i];
            let runs = t.state == T_RUNNING && (h is Stay || h is Switch && after.current == i);
            let killed = after.procs[t.pid as int].killed;
            &&& t.pid == s.threads[i].pid
            &&& state == T_RUNNABLE ==> runs || t.state == T_RUNNABLE || killed && t.state
                == T_EXITED
            &&& state == T_BLOCKED ==> runs || t.state == T_RUNNABLE || killed && t.state
                == T_EXITED || t.state == T_BLOCKED && t.deadline == s.threads[i].deadline
            &&& state == T_EXITED ==> t.state == T_EXITED
        }),
{
    lemma_handed(s, from, site);
    reveal(went_on);
    let start = at_choice(s, from);
    let f = settled_for(start);
    assert(became(
        start.threads[i],
        f.threads[i],
        f.threads[i].pid < f.procs.len() && f.procs[f.threads[i].pid as int].killed,
    ));
    let (after, h) = s.handed_off(from, site);
    if i != to_of(h, from) && !(h is Idle) {
        assert(after.threads[i] == f.threads[i]);
    }
}

/// Whoever waits until a time wakes at that time: after a hand-off no deadline
/// is behind the clock, and the clock went no further than the first deadline
/// of those that waited, but for the time of the hand-off itself. Nobody whose
/// time to crash has come is alive, as long as there is room to tell of it.
#[verifier::rlimit(40)]
pub proof fn deadlines_are_kept(s: StateView, from: Option<(usize, u32, u64)>, site: u64, i: int)
    requires
        s.threads.len() <= MAX_THREADS,
        s.procs.len() <= MAX_PROCS,
        s.quantum_lo <= s.quantum_hi,
        from matches Some(f) ==> f.0 < s.threads.len(),
    ensures
        ({
            let (after, h) = s.handed_off(from, site);
            let moved = if from is Some {
                s.clock_ns.wrapping_add(s.switch_ns)
            } else {
                s.clock_ns
            };
            &&& after.clock_ns >= moved
            &&& 0 <= i < after.threads.len() && after.threads[i].state == T_BLOCKED
                && after.threads[i].deadline != 0 ==> after.clock_ns < after.threads[i].deadline
            &&& 0 <= i < s.threads.len() && s.threads[i].deadline != 0 && (if from is Some
                && from->Some_0.0 == i {
                from->Some_0.1 == T_BLOCKED
            } else {
                s.threads[i].state == T_BLOCKED
            }) && after.threads[i].state != T_EXITED ==> after.clock_ns <= moved
                || after.clock_ns <= s.threads[i].deadline
            &&& after.kills.len() < MAX_PENDING_KILLS && 0 <= i < after.procs.len()
                && after.procs[i].crash_at != 0 && after.procs[i].state == P_LIVE
                && !after.procs[i].killed ==> after.clock_ns < after.procs[i].crash_at
        }),
{
    lemma_handed(s, from, site);
    let start = at_choice(s, from);
    let f = settled_for(start);
    lemma_settled_for(start);
    let (after, h) = s.handed_off(from, site);
    reveal(went_on);
    if 0 <= i < after.threads.len() && !(h is Idle) && i != to_of(h, from) {
        assert(after.threads[i] == f.threads[i]);
    }
    if 0 <= i < s.threads.len() {
        assert(start.threads[i].deadline == s.threads[i].deadline);
    }
    if 0 <= i < after.procs.len() && after.kills.len() < MAX_PENDING_KILLS {
        assert(!must_crash(f.procs[i], f.clock_ns));
    }
}

/// The clock waits for nobody while somebody can run: where some thread that
/// can run is not killed meanwhile, a hand-off takes its own time and no more.
#[verifier::rlimit(40)]
pub proof fn time_does_not_jump_while_work_is_left(
    s: StateView,
    from: Option<(usize, u32, u64)>,
    site: u64,
    i: int,
)
    requires
        s.threads.len() <= MAX_THREADS,
        s.procs.len() <= MAX_PROCS,
        s.quantum_lo <= s.quantum_hi,
        from matches Some(f) ==> f.0 < s.threads.len(),
        0 <= i < s.threads.len(),
        s.threads[i].pid < s.procs.len(),
        (if from is Some && from->Some_0.0 == i {
            from->Some_0.1 == T_RUNNABLE
        } else {
            s.threads[i].state == T_RUNNABLE
        }),
        !s.handed_off(from, site).0.procs[s.threads[i].pid as int].killed,
    ensures
        s.handed_off(from, site).0.clock_ns == (if from is Some {
            s.clock_ns.wrapping_add(s.switch_ns)
        } else {
            s.clock_ns
        }),
        !(s.handed_off(from, site).1 is Idle),
{
    lemma_handed(s, from, site);
    let start = at_choice(s, from);
    let f = settled_for(start);
    let c = start.caught_up();
    lemma_caught_up(start);
    lemma_settled_for(start);
    nobody_is_forgotten(s, from, site, i);
    assert(c.procs.len() <= MAX_PROCS) by {
        reveal(went_on);
    }
    if c.ready() <= 0 {
        lemma_waited(c);
    }
    assert(went_on(c, f) || c == f);
    reveal(went_on);
    assert(became(
        start.threads[i],
        c.threads[i],
        c.threads[i].pid < c.procs.len() && c.procs[c.threads[i].pid as int].killed,
    ));
    if c.procs[c.threads[i].pid as int].killed {
        assert(lived(c.procs[c.threads[i].pid as int], f.procs[c.threads[i].pid as int]));
    }
    lemma_some_ready(c.threads, i, c.threads.len() as int);
    if s.handed_off(from, site).1 is Idle {
        lemma_can_run(f.threads, f.threads.len() as int);
        assert(f.threads.take(f.threads.len() as int) =~= f.threads);
    }
}

/// The baton is handed by the park word: the thread that gets it finds its word
/// one higher, one that keeps it or waits finds it as it was, and the one that
/// gave it up is told what its own was.
#[verifier::rlimit(40)]
pub proof fn the_park_word_tells_who_has_the_baton(
    s: StateView,
    from: Option<(usize, u32, u64)>,
    site: u64,
    i: int,
)
    requires
        s.threads.len() <= MAX_THREADS,
        s.procs.len() <= MAX_PROCS,
        s.quantum_lo <= s.quantum_hi,
        from matches Some(f) ==> f.0 < s.threads.len(),
        0 <= i < s.threads.len(),
    ensures
        ({
            let (after, h) = s.handed_off(from, site);
            let given = h is Switch && h->to == i;
            &&& given ==> after.threads[i].park == s.threads[i].park.wrapping_add(1)
            &&& !given ==> after.threads[i].park == s.threads[i].park
            &&& h is Switch && from is Some && from->Some_0.0 == i ==> h->seen == s.threads[i].park
        }),
{
    let start = at_choice(s, from);
    let f = settled_for(start);
    let me = match from {
        Some((id, _, _)) => Some(id as int),
        None => None,
    };
    assert(start.chosen(me, site) == s.handed_off(from, site));
    assert(start.threads.len() == s.threads.len());
    lemma_settled_for(start);
    lemma_picked(start);
    let (p, who) = start.picked();
    assert(p.threads == f.threads);
    assert(f.threads.len() <= MAX_THREADS && f.threads.len() >= s.threads.len()
        && f.threads[i].park == s.threads[i].park) by {
        reveal(went_on);
        assert(became(
            start.threads[i],
            f.threads[i],
            f.threads[i].pid < f.procs.len() && f.procs[f.threads[i].pid as int].killed,
        ));
        assert(start.threads[i].park == s.threads[i].park);
    }
    lemma_parked(start, me, site, i);
}

proof fn lemma_parked(start: StateView, me: Option<int>, site: u64, i: int)
    requires
        ({
            let (p, who) = start.picked();
            &&& 0 <= i < p.threads.len() <= MAX_THREADS
            &&& who matches Some(next) ==> 0 <= next < p.threads.len()
            &&& me matches Some(id) ==> 0 <= id < p.threads.len()
        }),
    ensures
        ({
            let (after, h) = start.chosen(me, site);
            let p = start.picked().0;
            let given = h is Switch && h->to == i;
            &&& given ==> after.threads[i].park == p.threads[i].park.wrapping_add(1)
            &&& !given ==> after.threads[i].park == p.threads[i].park
            &&& h is Switch && me == Some(i) ==> h->seen == p.threads[i].park
        }),
{
    let (p, who) = start.picked();
    if let Some(next) = who {
        let q = p.quantum_issued().0;
        assert(q.threads == p.threads);
        let t = ThreadRec { state: T_RUNNING, ..q.threads[next] };
        let r = q.with_thread(next, t);
        assert(r.threads[i].park == p.threads[i].park);
    }
}

} // verus!
