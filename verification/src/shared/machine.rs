//! What the machine hands out differs from run to run: the kernel's pids and
//! the addresses of its threads. The schedule does not depend on them.

use vstd::prelude::*;
use super::alarms;
use super::faults;
use super::laws;
use super::schedule;
use super::{
    Faults, Handoff, ProcRec, StateView, ThreadRec, MAX_PENDING_KILLS, NO_LIMIT, RESTART_KEY, T_BLOCKED,
    T_RUNNING,
};

verus! {

impl ThreadRec {
    /// Without its address
    pub open spec fn bare(self) -> ThreadRec {
        ThreadRec { pthread: 0, ..self }
    }
}

impl ProcRec {
    /// Without its real pid
    pub open spec fn bare(self) -> ProcRec {
        ProcRec { real_pid: 0, ..self }
    }
}

pub open spec fn bare_threads(threads: Seq<ThreadRec>) -> Seq<ThreadRec> {
    threads.map_values(|t: ThreadRec| t.bare())
}

pub open spec fn bare_procs(procs: Seq<ProcRec>) -> Seq<ProcRec> {
    procs.map_values(|p: ProcRec| p.bare())
}

impl StateView {
    /// Without what the machine hands out
    pub open spec fn bare(self) -> StateView {
        StateView {
            threads: bare_threads(self.threads),
            procs: bare_procs(self.procs),
            kills: self.kills.map_values(|k: i32| 0i32),
            ..self
        }
    }
}

proof fn lemma_ready(threads: Seq<ThreadRec>, n: int)
    requires
        n <= threads.len(),
    ensures
        schedule::ready(bare_threads(threads), n) == schedule::ready(threads, n),
    decreases n,
{
    if n > 0 {
        lemma_ready(threads, n - 1);
    }
}

proof fn lemma_nth_ready(threads: Seq<ThreadRec>, k: int, i: int)
    ensures
        schedule::nth_ready(bare_threads(threads), k, i) == schedule::nth_ready(threads, k, i),
    decreases threads.len() - i,
{
    if 0 <= i < threads.len() {
        lemma_nth_ready(threads, k, i + 1);
        lemma_nth_ready(threads, k - 1, i + 1);
    }
}

proof fn lemma_next_deadline(threads: Seq<ThreadRec>, n: int)
    requires
        n <= threads.len(),
    ensures
        schedule::next_deadline(bare_threads(threads), n) == schedule::next_deadline(threads, n),
    decreases n,
{
    if n > 0 {
        lemma_next_deadline(threads, n - 1);
    }
}

proof fn lemma_next_crash(procs: Seq<ProcRec>, n: int)
    requires
        n <= procs.len(),
    ensures
        faults::next_crash_of(bare_procs(procs), n) == faults::next_crash_of(procs, n),
    decreases n,
{
    if n > 0 {
        lemma_next_crash(procs, n - 1);
    }
}

proof fn lemma_with_proc(s: StateView, i: int, p: ProcRec)
    requires
        0 <= i < s.procs.len(),
    ensures
        s.bare().with_proc(i, p.bare()) == s.with_proc(i, p).bare(),
{
    assert(s.bare().with_proc(i, p.bare()) =~= s.with_proc(i, p).bare());
}

proof fn lemma_with_thread(s: StateView, i: int, t: ThreadRec)
    requires
        0 <= i < s.threads.len(),
    ensures
        s.bare().with_thread(i, t.bare()) == s.with_thread(i, t).bare(),
{
    assert(s.bare().with_thread(i, t.bare()) =~= s.with_thread(i, t).bare());
}

proof fn lemma_crash_drawn(s: StateView, pid: int, starts: u64)
    requires
        0 <= pid < s.procs.len(),
    ensures
        s.bare().crash_drawn(pid, starts) == s.crash_drawn(pid, starts).bare(),
{
    assert(s.bare().crash_drawn(pid, starts) =~= s.crash_drawn(pid, starts).bare());
}

proof fn lemma_restart(s: StateView, victim: int)
    requires
        0 <= victim < s.procs.len(),
    ensures
        s.bare().restart_registered(victim) == s.restart_registered(victim).bare(),
{
    if !s.stays_dead(victim) {
        let dead = s.procs[victim];
        let f = dead.faults;
        let next = s.procs.len() as int;
        let left = if f.restarts_left == NO_LIMIT {
            NO_LIMIT
        } else {
            (f.restarts_left - 1) as u32
        };
        let starts = s.clock_ns.wrapping_add(
            faults::at_least_one(
                faults::drawn(s.fault_rng, f.restart_delay_lo_ns, f.restart_delay_hi_ns),
            ),
        );
        let t = s.proc_added(dead.host, super::NO_PROC).with_proc(
            next,
            ProcRec {
                faults: Faults { restarts_left: left, ..f },
                spec: dead.spec,
                restart_of: victim as u32,
                ..ProcRec::fresh(dead.host, super::NO_PROC)
            },
        ).with_proc(victim, ProcRec { replaced_by: next as u32, ..dead }).thread_added(
            next as u32,
        ).with_thread(
            s.threads.len() as int,
            ThreadRec {
                state: T_BLOCKED,
                key: RESTART_KEY,
                deadline: starts,
                ..ThreadRec::fresh(next as u32)
            },
        );
        let u = StateView { fault_rng: crate::rng::advanced(s.fault_rng), ..t };
        lemma_crash_drawn(u, next, starts);
        let b = s.bare();
        let bt = b.proc_added(dead.host, super::NO_PROC).with_proc(
            next,
            ProcRec {
                faults: Faults { restarts_left: left, ..f },
                spec: dead.spec,
                restart_of: victim as u32,
                ..ProcRec::fresh(dead.host, super::NO_PROC)
            },
        ).with_proc(victim, ProcRec { replaced_by: next as u32, ..dead.bare() }).thread_added(
            next as u32,
        ).with_thread(
            s.threads.len() as int,
            ThreadRec {
                state: T_BLOCKED,
                key: RESTART_KEY,
                deadline: starts,
                ..ThreadRec::fresh(next as u32)
            },
        );
        assert(bt =~= t.bare());
        assert(s.bare().restart_registered(victim) =~= s.restart_registered(victim).bare());
    }
}

proof fn lemma_crashed(s: StateView, victim: int)
    requires
        0 <= victim < s.procs.len(),
    ensures
        s.bare().crashed(victim) == s.crashed(victim).bare(),
{
    let a = s.retired(victim as u32);
    assert(s.bare().retired(victim as u32) =~= a.bare());
    let p = ProcRec { killed: true, crash_at: 0, ..a.procs[victim] };
    let b = a.with_proc(victim, p);
    lemma_with_proc(a, victim, p);
    let c = b.hung_up(victim as u32);
    assert(b.bare().hung_up(victim as u32) =~= c.bare());
    let d = c.parent_woken(victim);
    assert(c.bare().parent_woken(victim) =~= d.bare());
    let e = d.loss_noted(victim);
    assert(d.bare().loss_noted(victim) =~= e.bare());
    lemma_restart(e, victim);
}

#[verifier::spinoff_prover]
#[verifier::rlimit(50)]
proof fn lemma_condemned(s: StateView, pid: int)
    requires
        0 <= pid < s.procs.len(),
    ensures
        s.bare().condemned(pid) == s.condemned(pid).bare(),
{
    let p = s.procs[pid];
    let left = if p.faults.crashes_left == NO_LIMIT {
        NO_LIMIT
    } else {
        (p.faults.crashes_left - 1) as u32
    };
    let q = ProcRec { faults: Faults { crashes_left: left, ..p.faults }, crash_at: 0, ..p };
    lemma_with_proc(s, pid, q);
    lemma_crashed(s.with_proc(pid, q), pid);
    assert(s.bare().condemned(pid) =~= s.condemned(pid).bare());
}

proof fn lemma_injected(s: StateView, pid: int, n: int)
    requires
        0 <= pid,
        n <= s.procs.len(),
    ensures
        s.bare().crashes_injected_from(pid, n) == s.crashes_injected_from(pid, n).bare(),
    decreases n - pid,
{
    if pid < n {
        if !s.procs[pid].crash_due(s.clock_ns) {
            lemma_injected(s, pid + 1, n);
        } else if s.kills.len() < MAX_PENDING_KILLS {
            lemma_condemned(s, pid);
            laws::lemma_condemned(s, pid);
            lemma_injected(s.condemned(pid), pid + 1, n);
        }
    }
}

proof fn lemma_caught_up(s: StateView)
    ensures
        s.bare().caught_up() == s.caught_up().bare(),
{
    let m = s.clock_moved();
    assert(s.bare().clock_moved() =~= m.bare());
    lemma_injected(m, 0, m.procs.len() as int);
    let i = m.due_crashes_injected();
    let e = i.expired();
    assert(i.bare().expired() =~= e.bare());
    lemma_rung_from(e, 0, e.procs.len() as int);
}

proof fn lemma_blocked_from(threads: Seq<ThreadRec>, pid: u32, i: int)
    requires
        0 <= i,
    ensures
        alarms::blocked_from(bare_threads(threads), pid, i) == alarms::blocked_from(
            threads,
            pid,
            i,
        ),
    decreases threads.len() - i,
{
    if i < threads.len() {
        lemma_blocked_from(threads, pid, i + 1);
    }
}

proof fn lemma_rung_from(s: StateView, pid: int, n: int)
    requires
        0 <= pid,
        n <= s.procs.len(),
    ensures
        s.bare().rung_from(pid, n) == s.rung_from(pid, n).bare(),
    decreases n - pid,
{
    if pid < n {
        if s.procs[pid].alarm_due(s.clock_ns) {
            let p = s.procs[pid];
            let q = ProcRec { alarm: p.alarm.rung(), ..p };
            lemma_with_proc(s, pid, q);
            let a = s.with_proc(pid, q);
            let b = a.sig_queued(pid as u32, alarms::SIGALRM as int);
            assert(a.bare().sig_queued(pid as u32, alarms::SIGALRM as int) =~= b.bare());
            lemma_blocked_from(b.threads, pid as u32, 0);
            alarms::lemma_blocked_from(b.threads, pid as u32, 0);
            let c = b.one_awake(pid as u32);
            assert(b.bare().one_awake(pid as u32) =~= c.bare());
            assert(c.bare().io_woken() =~= c.io_woken().bare());
            lemma_rung_from(s.rung(pid), pid + 1, n);
        } else {
            lemma_rung_from(s, pid + 1, n);
        }
    }
}

proof fn lemma_next_alarm(s: StateView, n: int)
    requires
        n <= s.procs.len(),
    ensures
        alarms::next_alarm_of(s.bare().procs, s.bare().threads, n) == alarms::next_alarm_of(
            s.procs,
            s.threads,
            n,
        ),
    decreases n,
{
    if n > 0 {
        lemma_next_alarm(s, n - 1);
        lemma_blocked_from(s.threads, (n - 1) as u32, 0);
    }
}

proof fn lemma_waited(s: StateView)
    ensures
        s.bare().waited() == s.waited().bare(),
    decreases
            MAX_PENDING_KILLS - s.kills.len(),
            s.net.in_flight,
            (if s.due_is_exact() {
                0int
            } else {
                1int
            }),
{
    lemma_next_deadline(s.threads, s.threads.len() as int);
    lemma_next_crash(s.procs, s.procs.len() as int);
    lemma_next_alarm(s, s.procs.len() as int);
    assert(s.bare().next_event() == s.next_event());
    if let Some(at) = s.next_event() {
        let next = s.jumped(at);
        let c = StateView {
            clock_ns: if s.clock_ns < at {
                at
            } else {
                s.clock_ns
            },
            ..s
        };
        lemma_caught_up(c);
        assert(StateView { clock_ns: c.clock_ns, ..s.bare() } =~= c.bare());
        assert(s.bare().jumped(at) == next.bare());
        lemma_ready(next.threads, next.threads.len() as int);
        if next.ready() <= 0 && next.has_moved_on_from(s) && next.has_less_to_come_than(s) {
            lemma_waited(next);
        }
    }
}

proof fn lemma_picked(s: StateView)
    ensures
        s.bare().picked().0 == s.picked().0.bare(),
        s.bare().picked().1 == s.picked().1,
{
    lemma_caught_up(s);
    let c = s.caught_up();
    lemma_ready(c.threads, c.threads.len() as int);
    lemma_waited(c);
    let w = if c.ready() > 0 {
        c
    } else {
        c.waited()
    };
    lemma_ready(w.threads, w.threads.len() as int);
    lemma_nth_ready(
        w.threads,
        crate::rng::scaled(crate::rng::output(w.rng), w.ready() as u64),
        0,
    );
    assert(s.bare().picked().0 =~= s.picked().0.bare());
}

proof fn lemma_chosen(s: StateView, me: Option<int>, site: u64)
    requires
        s.threads.len() <= super::MAX_THREADS,
        me matches Some(id) ==> 0 <= id < s.threads.len(),
    ensures
        s.bare().chosen(me, site).0 == s.chosen(me, site).0.bare(),
        s.bare().chosen(me, site).1 == s.chosen(me, site).1,
{
    lemma_picked(s);
    laws::lemma_picked(s);
    let (p, next) = s.picked();
    if let Some(next) = next {
        let q = p.quantum_issued().0;
        assert(p.bare().quantum_issued().0 =~= q.bare());
        let t = ThreadRec { state: T_RUNNING, ..q.threads[next] };
        lemma_with_thread(q, next, t);
        let r = q.with_thread(next, t);
        let given = ThreadRec { park: t.park.wrapping_add(1), ..t };
        lemma_with_thread(r, next, given);
        assert(s.bare().chosen(me, site).0 =~= s.chosen(me, site).0.bare());
    }
}

/// What a hand-off of the baton comes to, without what the machine hands out
#[verifier::opaque]
pub open spec fn outcome(s: StateView, from: Option<(usize, u32, u64)>, site: u64) -> (
    StateView,
    Handoff,
) {
    (s.handed_off(from, site).0.bare(), s.handed_off(from, site).1)
}

proof fn lemma_outcome(s: StateView, from: Option<(usize, u32, u64)>, site: u64)
    requires
        s.threads.len() <= super::MAX_THREADS,
        from matches Some(f) ==> f.0 < s.threads.len(),
    ensures
        outcome(s, from, site) == s.bare().handed_off(from, site),
{
    reveal(outcome);
    lemma_handed_off(s, from, site);
}

/// The schedule does not depend on what the machine hands out: two states
/// that differ in real pids and thread addresses alone hand the baton to the
/// same thread, at the same time, for the same quantum, and are again two
/// such states.
pub proof fn the_machine_does_not_show(
    a: StateView,
    b: StateView,
    from: Option<(usize, u32, u64)>,
    site: u64,
)
    requires
        a.bare() == b.bare(),
        a.threads.len() <= super::MAX_THREADS,
        from matches Some(f) ==> f.0 < a.threads.len(),
    ensures
        outcome(a, from, site) == outcome(b, from, site),
{
    assert(a.bare().threads.len() == a.threads.len());
    assert(b.bare().threads.len() == b.threads.len());
    lemma_outcome(a, from, site);
    lemma_outcome(b, from, site);
}

proof fn lemma_handed_off(s: StateView, from: Option<(usize, u32, u64)>, site: u64)
    requires
        s.threads.len() <= super::MAX_THREADS,
        from matches Some(f) ==> f.0 < s.threads.len(),
    ensures
        s.bare().handed_off(from, site).1 == s.handed_off(from, site).1,
        s.bare().handed_off(from, site).0 == s.handed_off(from, site).0.bare(),
{
    match from {
        Some((id, state, key)) => {
            let t = ThreadRec { state, key, ..s.threads[id as int] };
            lemma_with_thread(s, id as int, t);
            let start = StateView {
                clock_ns: s.clock_ns.wrapping_add(s.switch_ns),
                ..s.with_thread(id as int, t)
            };
            assert(StateView {
                clock_ns: s.clock_ns.wrapping_add(s.switch_ns),
                ..s.bare().with_thread(id as int, t.bare())
            } =~= start.bare());
            lemma_chosen(start, Some(id as int), site);
        },
        None => {
            lemma_chosen(s, None, site);
        },
    }
}

} // verus!
