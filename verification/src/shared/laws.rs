//! What the scheduler promises.

use vstd::prelude::*;
use super::alarms;
use super::schedule;
use super::waiting;
use super::{
    Handoff, StateView, ThreadRec, MAX_PENDING_KILLS, MAX_PROCS, T_EXITED, T_RUNNABLE, T_RUNNING,
    VPID_BASE,
};
use crate::netstate;
use crate::rng;
use crate::shared;

verus! {

/// A virtual pid names the process it was made for, and no other pid does.
pub proof fn virtual_pids_name_their_processes(i: u32, pid: i32)
    requires
        i < MAX_PROCS,
    ensures
        shared::proc_named(shared::vpid(i)) == Some(i),
        shared::proc_named(pid) == Some(i) ==> pid == shared::vpid(i),
        pid < VPID_BASE ==> shared::proc_named(pid) is None,
{
}

/// No thread is running.
pub open spec fn none_runs(threads: Seq<ThreadRec>) -> bool {
    forall|i: int| 0 <= i < threads.len() ==> (#[trigger] threads[i]).state != T_RUNNING
}

/// What the passing of time keeps of a state that has come before: nobody
/// starts to run, no thread or process is taken away, and the clock does
/// not go back.
pub open spec fn passes(before: StateView, after: StateView) -> bool {
    &&& none_runs(before.threads) ==> none_runs(after.threads)
    &&& before.threads.len() <= after.threads.len()
    &&& before.procs.len() <= after.procs.len()
    &&& before.threads.len() <= shared::MAX_THREADS ==> after.threads.len() <= shared::MAX_THREADS
    &&& before.clock_ns <= after.clock_ns
}

pub(super) proof fn lemma_condemned(s: StateView, pid: int)
    requires
        0 <= pid < s.procs.len(),
    ensures
        passes(s, s.condemned(pid)),
        s.condemned(pid).clock_ns == s.clock_ns,
{
    let p = s.procs[pid];
    let left = if p.faults.crashes_left == shared::NO_LIMIT {
        shared::NO_LIMIT
    } else {
        (p.faults.crashes_left - 1) as u32
    };
    let faults = shared::Faults { crashes_left: left, ..p.faults };
    let a = s.with_proc(pid, shared::ProcRec { faults, crash_at: 0, ..p });
    assert(passes(s, a));
    let b = a.retired(pid as u32);
    assert(passes(a, b));
    let c = b.with_proc(
        pid,
        shared::ProcRec { killed: true, crash_at: 0, ..b.procs[pid] },
    );
    assert(passes(b, c));
    let d = c.hung_up(pid as u32);
    assert(passes(c, d));
    let e = d.parent_woken(pid);
    assert(passes(d, e));
    let f = e.loss_noted(pid);
    assert(passes(e, f));
    assert(passes(f, f.restart_registered(pid)));
}

proof fn lemma_injected(s: StateView, pid: int, n: int)
    requires
        0 <= pid,
        n <= s.procs.len(),
    ensures
        passes(s, s.crashes_injected_from(pid, n)),
        s.crashes_injected_from(pid, n).clock_ns == s.clock_ns,
    decreases n - pid,
{
    if pid < n {
        if !s.procs[pid].crash_due(s.clock_ns) {
            lemma_injected(s, pid + 1, n);
        } else if s.kills.len() < MAX_PENDING_KILLS {
            lemma_condemned(s, pid);
            lemma_injected(s.condemned(pid), pid + 1, n);
        }
    }
}

proof fn lemma_caught_up(s: StateView)
    ensures
        passes(s, s.caught_up()),
        s.caught_up().clock_ns == s.clock_ns,
{
    let m = s.clock_moved();
    assert(passes(s, m));
    lemma_injected(m, 0, m.procs.len() as int);
    let e = m.due_crashes_injected().expired();
    assert(passes(m.due_crashes_injected(), e));
    alarms::lemma_rung_from(e, 0, e.procs.len() as int);
    assert(passes(e, s.caught_up())) by {
        let after = s.caught_up();
        assert forall|i: int| 0 <= i < after.threads.len() && e.threads[i].state
            != T_RUNNING implies (#[trigger] after.threads[i]).state != T_RUNNING by {
            assert(after.threads[i] == e.threads[i] || after.threads[i] == e.threads[i].awake());
        }
    }
}

proof fn lemma_waited(s: StateView)
    ensures
        passes(s, s.waited()),
    decreases
            MAX_PENDING_KILLS - s.kills.len(),
            s.net.in_flight,
            (if s.due_is_exact() {
                0int
            } else {
                1int
            }),
{
    if let Some(at) = s.next_event() {
        let next = s.jumped(at);
        let c = StateView {
            clock_ns: if s.clock_ns < at {
                at
            } else {
                s.clock_ns
            },
            ..s
        };
        lemma_caught_up(c);
        if next.ready() <= 0 && next.has_moved_on_from(s) && next.has_less_to_come_than(s) {
            lemma_waited(next);
        }
    }
}

pub(super) proof fn lemma_picked(s: StateView)
    ensures
        passes(s, s.picked().0),
        s.threads.len() <= shared::MAX_THREADS ==> (s.picked().1 matches Some(next) ==> 0 <= next
            < s.picked().0.threads.len() && s.picked().0.threads[next].state == T_RUNNABLE),
{
    lemma_caught_up(s);
    let c = s.caught_up();
    if c.ready() <= 0 {
        lemma_waited(c);
    }
    let w = if c.ready() > 0 {
        c
    } else {
        c.waited()
    };
    if w.ready() > 0 && s.threads.len() <= shared::MAX_THREADS {
        schedule::lemma_ready_bound(w.threads, w.threads.len() as int);
        rng::lemma_scaled_below(rng::output(w.rng), w.ready() as u64);
        schedule::lemma_nth_ready(
            w.threads,
            rng::scaled(rng::output(w.rng), w.ready() as u64),
            0,
            w.threads.len() as int,
        );
    }
}

/// Only one thread of the whole run holds the baton: where nobody but the
/// caller was running, after the baton was passed nobody but its new holder
/// is, and nobody at all where nothing could run.
pub proof fn one_thread_runs(s: StateView, from: Option<(usize, u32, u64)>, site: u64)
    requires
        s.threads.len() <= shared::MAX_THREADS,
        from matches Some(f) ==> f.0 < s.threads.len() && f.1 != T_RUNNING && (forall|i: int|
            0 <= i < s.threads.len() && i != f.0 ==> (#[trigger] s.threads[i]).state != T_RUNNING),
        from is None ==> none_runs(s.threads),
    ensures
        ({
            let (after, h) = s.handed_off(from, site);
            match h {
                Handoff::Idle => none_runs(after.threads),
                Handoff::Stay => from is Some && runs_alone(after.threads, from->Some_0.0 as int),
                Handoff::Switch { to, .. } => runs_alone(after.threads, to as int)
                    && after.current == to,
            }
        }),
{
    let start = match from {
        Some((id, state, key)) => StateView {
            clock_ns: s.clock_ns.wrapping_add(s.switch_ns),
            ..s.with_thread(id as int, ThreadRec { state, key, ..s.threads[id as int] })
        },
        None => s,
    };
    let me = match from {
        Some((id, _, _)) => Some(id as int),
        None => None,
    };
    assert(none_runs(start.threads));
    lemma_chosen(start, me, site);
}

proof fn lemma_chosen(s: StateView, me: Option<int>, site: u64)
    requires
        s.threads.len() <= shared::MAX_THREADS,
        me matches Some(id) ==> 0 <= id < s.threads.len(),
        none_runs(s.threads),
    ensures
        ({
            let (after, h) = s.chosen(me, site);
            match h {
                Handoff::Idle => none_runs(after.threads),
                Handoff::Stay => me is Some && runs_alone(after.threads, me->Some_0),
                Handoff::Switch { to, .. } => runs_alone(after.threads, to as int)
                    && after.current == to,
            }
        }),
{
    lemma_picked(s);
    let (p, next) = s.picked();
    if let Some(next) = next {
        let q = p.quantum_issued().0;
        let r = q.with_thread(next, ThreadRec { state: T_RUNNING, ..q.threads[next] });
        assert(runs_alone(r.threads, next));
        assert forall|x: StateView| x.threads == r.threads implies runs_alone(
            (#[trigger] x.given(next)).threads,
            next,
        ) by {
        }
    }
}

/// A death takes no process out of the table.
pub proof fn the_dead_keep_their_places(s: StateView, pid: int, status: i32)
    requires
        0 <= pid < s.procs.len(),
    ensures
        s.procs.len() <= s.died(pid, status).0.procs.len(),
{
    reveal(StateView::died);
    let b = s.bereft(pid, status);
    assert(s.procs.len() <= b.procs.len());
    if b.holds_baton(pid as u32) {
        let id = b.current as int;
        let start = StateView {
            clock_ns: b.clock_ns.wrapping_add(b.switch_ns),
            ..b.with_thread(id, ThreadRec { state: T_EXITED, key: 0, ..b.threads[id] })
        };
        lemma_picked(start);
        assert(start.chosen(Some(id), shared::SITE_PROCESS_DIED).0.procs.len()
            >= start.procs.len());
    }
}

/// One thread runs, and no other.
pub open spec fn runs_alone(threads: Seq<ThreadRec>, me: int) -> bool {
    &&& 0 <= me < threads.len()
    &&& threads[me].state == T_RUNNING
    &&& forall|i: int|
        0 <= i < threads.len() && i != me ==> (#[trigger] threads[i]).state != T_RUNNING
}

/// Picking who runs next never turns the clock back.
pub proof fn the_clock_only_moves_on(s: StateView, me: Option<int>, site: u64)
    ensures
        s.clock_ns <= s.chosen(me, site).0.clock_ns,
{
    lemma_picked(s);
}

/// No thread of a process that crashed is left in the schedule.
pub proof fn a_crashed_process_does_not_run(s: StateView, victim: int, i: int)
    requires
        0 <= victim < s.procs.len() <= MAX_PROCS,
        0 <= i < s.crashed(victim).threads.len(),
        s.crashed(victim).threads[i].pid == victim,
    ensures
        s.crashed(victim).threads[i].state == T_EXITED,
{
}

/// Signaling a condition variable takes the thread off it that was queued
/// first, whenever any is queued.
pub proof fn the_first_queued_is_signaled(s: StateView, pid: u32, cond: u64, i: int)
    requires
        0 <= i < s.threads.len(),
        s.threads[i].queued(pid, cond),
    ensures
        ({
            let first = waiting::longest(s.threads, pid, cond, s.threads.len() as int);
            &&& first matches Some(k)
            &&& 0 <= k < s.threads.len()
            &&& s.threads[k].queued(pid, cond)
            &&& s.threads[k].cond_seq <= s.threads[i].cond_seq
            &&& s.one_signaled(pid, cond).threads == s.threads.update(k, s.threads[k].signal())
        }),
{
    lemma_longest_is_first(s.threads, pid, cond, s.threads.len() as int, i);
}

proof fn lemma_longest_is_first(threads: Seq<ThreadRec>, pid: u32, cond: u64, n: int, i: int)
    requires
        0 <= i < n <= threads.len(),
        threads[i].queued(pid, cond),
    ensures
        waiting::longest(threads, pid, cond, n) matches Some(k) && 0 <= k < n
            && threads[k].queued(pid, cond) && threads[k].cond_seq <= threads[i].cond_seq,
    decreases n,
{
    if i < n - 1 {
        lemma_longest_is_first(threads, pid, cond, n - 1, i);
    } else {
        waiting::lemma_longest(threads, pid, cond, n - 1);
    }
}

/// A process that has crashed holds no socket, and neither does one whose
/// death the launcher has seen, before the baton goes on.
pub proof fn a_dead_process_holds_no_socket(s: StateView, pid: u32, status: i32, sock: u32)
    requires
        s.net.wf(),
        pid < s.procs.len(),
        sock < netstate::MAX_SOCKETS,
    ensures
        netstate::refs::held(s.crashed(pid as int).net.fdrefs, pid, sock) == 0,
        netstate::refs::held(s.bereft(pid as int, status).net.fdrefs, pid, sock) == 0,
{
    netstate::holdings::the_dead_hold_no_socket(s.net, pid, sock);
    assert(s.crashed(pid as int).net == s.net.refs_set(pid, Seq::empty()));
    assert(s.bereft(pid as int, status).net == s.net.refs_set(pid, Seq::empty()));
}

/// The next life of a process leaves it as dead as it was.
pub(super) proof fn lemma_restarted(s: StateView, pid: int)
    requires
        0 <= pid < s.procs.len(),
    ensures
        ({
            let r = s.restart_registered(pid);
            &&& r.procs.len() >= s.procs.len()
            &&& r.procs[pid].state == s.procs[pid].state
            &&& r.procs[pid].killed == s.procs[pid].killed
            &&& r.procs[pid].exit_status == s.procs[pid].exit_status
            &&& r.procs[pid].parent == s.procs[pid].parent
            &&& r.procs[pid].dead_child == s.procs[pid].dead_child
            &&& forall|i: int|
                0 <= i < s.procs.len() && i != pid ==> #[trigger] r.procs[i] == s.procs[i]
        }),
{
}

/// One that crashed is killed, and one whose death was seen has exited.
pub proof fn lemma_dead(s: StateView, pid: int, status: i32)
    requires
        0 <= pid < s.procs.len(),
    ensures
        s.crashed(pid).procs.len() >= s.procs.len(),
        s.crashed(pid).procs[pid].killed,
        s.crashed(pid).procs[pid].state == s.procs[pid].state,
        s.crashed(pid).procs[pid].exit_status == s.procs[pid].exit_status,
        s.bereft(pid, status).procs.len() >= s.procs.len(),
        s.bereft(pid, status).procs[pid].state == shared::P_EXITED,
        s.bereft(pid, status).procs[pid].exit_status == status,
        s.procs[pid].parent < s.procs.len() ==> s.crashed(pid).procs[s.procs[pid].parent as int].dead_child
            == pid as u32,
        s.procs[pid].parent < s.procs.len() && !s.procs[pid].killed ==> s.bereft(
            pid,
            status,
        ).procs[s.procs[pid].parent as int].dead_child == pid as u32,
{
    let a = s.retired(pid as u32);
    let b = a.with_proc(pid, shared::ProcRec { killed: true, crash_at: 0, ..a.procs[pid] });
    let c = b.hung_up(pid as u32).parent_woken(pid).loss_noted(pid);
    assert(c.procs[pid].killed && c.procs[pid].state == s.procs[pid].state
        && c.procs[pid].exit_status == s.procs[pid].exit_status);
    lemma_restarted(c, pid);
    lemma_restarted(s, pid);
}

/// Whoever waits for I/O looks again when a signal is sent to another process,
/// when a process is killed and when a death is seen: it may be what it
/// watches.
pub proof fn a_parked_watcher_looks_again(
    s: StateView,
    pid: u32,
    sig: int,
    status: i32,
    i: int,
)
    requires
        s.wf(),
        pid < s.procs.len(),
        0 <= i < s.threads.len(),
        s.threads[i].state == shared::T_BLOCKED,
        s.threads[i].key == shared::IO_KEY,
        s.threads[i].pid != pid,
    ensures
        s.sig_queued(pid, sig).io_woken().threads[i].state == T_RUNNABLE,
        s.crashed(pid as int).threads[i].state == T_RUNNABLE,
        s.bereft(pid as int, status).threads[i].state == T_RUNNABLE,
{
    let a = s.retired(pid);
    let b = a.with_proc(
        pid as int,
        shared::ProcRec { killed: true, crash_at: 0, ..a.procs[pid as int] },
    );
    let c = b.hung_up(pid);
    assert(c.threads[i].state == T_RUNNABLE);
    let d = c.parent_woken(pid as int).loss_noted(pid as int);
    assert(d.threads[i].state == T_RUNNABLE);
    lemma_threads_of_restart(d, pid as int, i);
    lemma_threads_of_restart(s, pid as int, i);
}

proof fn lemma_threads_of_restart(s: StateView, pid: int, i: int)
    requires
        0 <= i < s.threads.len(),
        0 <= pid < s.procs.len(),
    ensures
        s.restart_registered(pid).threads[i] == s.threads[i],
{
}

} // verus!
