//! What becomes of those that crash, exit, wait or are signaled.

use vstd::prelude::*;
use super::children::Killed;
use super::choice;
use super::waiting;
use super::{
    Faults, ProcRec, StateView, ThreadRec, IO_KEY, MAX_PROCS, MAX_THREADS, NO_LIMIT, NO_PROC,
    P_EXITED, P_STARTING, RESTART_ALWAYS, RESTART_KEY, RESTART_NEVER, RESTART_ON_FAILURE,
    T_BLOCKED, T_EXITED, T_RUNNABLE, VPID_BASE, WAIT_KEY,
};
use crate::rng;

verus! {

/// A process whose death brings another life, as far as it goes by how often
/// that may happen and by what room there is
pub open spec fn may_return(s: StateView, victim: int) -> bool {
    let p = s.procs[victim];
    &&& p.replaced_by == NO_PROC
    &&& p.spec != NO_PROC
    &&& p.faults.restarts_left > 0
    &&& s.procs.len() < MAX_PROCS
    &&& s.threads.len() < MAX_THREADS
}

/// The state after the death of `victim` at `now` holds its next life, the
/// process and the thread numbered next: on the same host and of the same
/// entry, blocked until the restart delay of its settings is over, and with a
/// crash that far into the life as they say.
pub open spec fn lives_again(s: StateView, victim: int, now: u64, after: StateView) -> bool {
    let p = s.procs[victim];
    let f = p.faults;
    let next = after.procs[s.procs.len() as int];
    let main = after.threads[s.threads.len() as int];
    let lo = if f.restart_delay_lo_ns == 0 {
        1int
    } else {
        f.restart_delay_lo_ns as int
    };
    let hi = if f.restart_delay_hi_ns == 0 {
        1int
    } else {
        f.restart_delay_hi_ns as int
    };
    &&& after.procs.len() == s.procs.len() + 1
    &&& after.threads.len() == s.threads.len() + 1
    &&& after.procs[victim].replaced_by == s.procs.len()
    &&& next.restart_of == victim
    &&& next.state == P_STARTING
    &&& !next.killed
    &&& next.host == p.host
    &&& next.spec == p.spec
    &&& next.parent == NO_PROC
    &&& next.replaced_by == NO_PROC
    &&& next.faults.restart == f.restart
    &&& next.faults.crashes_left == f.crashes_left
    &&& next.faults.restarts_left == (if f.restarts_left == NO_LIMIT {
        NO_LIMIT as int
    } else {
        f.restarts_left - 1
    })
    &&& main.pid == s.procs.len()
    &&& main.state == T_BLOCKED
    &&& main.key == RESTART_KEY
    &&& now + hi <= u64::MAX ==> now + lo <= main.deadline <= now + hi
    &&& f.crash_hi_ns == 0 || f.crashes_left == 0 ==> next.crash_at == 0
    &&& f.crash_hi_ns != 0 && f.crashes_left != 0 && main.deadline + f.crash_hi_ns <= u64::MAX
        && main.deadline > 0 ==> main.deadline + f.crash_lo_ns <= next.crash_at <= main.deadline
        + f.crash_hi_ns
    &&& after.restarts == s.restarts.wrapping_add(1)
}

/// A life that is registered starts after the delay its settings ask for, no
/// earlier and no later; without another life to come nothing changes.
#[verifier::rlimit(40)]
pub proof fn a_restart_waits_for_its_delay(s: StateView, victim: int)
    requires
        s.wf(),
        0 <= victim < s.procs.len(),
    ensures
        may_return(s, victim) ==> lives_again(
            s,
            victim,
            s.clock_ns,
            s.restart_registered(victim),
        ),
        !may_return(s, victim) ==> s.restart_registered(victim) == s,
{
    let p = s.procs[victim];
    assert(p.wf());
    let f = p.faults;
    rng::lemma_scaled_below(
        rng::output(s.fault_rng),
        (f.restart_delay_hi_ns - f.restart_delay_lo_ns + 1) as u64,
    );
    rng::lemma_scaled_below(
        rng::output(rng::advanced(s.fault_rng)),
        (f.crash_hi_ns - f.crash_lo_ns + 1) as u64,
    );
}

/// The delay is drawn from the stream of faults, evenly from its range.
pub proof fn a_restart_delay_is_drawn(s: StateView, victim: int)
    requires
        s.wf(),
        0 <= victim < s.procs.len(),
        may_return(s, victim),
        s.procs[victim].faults.restart_delay_lo_ns > 0,
        s.clock_ns + s.procs[victim].faults.restart_delay_hi_ns <= u64::MAX,
    ensures
        ({
            let f = s.procs[victim].faults;
            let width = f.restart_delay_hi_ns - f.restart_delay_lo_ns + 1;
            s.restart_registered(victim).threads[s.threads.len() as int].deadline == s.clock_ns
                + f.restart_delay_lo_ns + (rng::output(s.fault_rng) as int * width)
                / 0x1_0000_0000_0000_0000
        }),
{
    let p = s.procs[victim];
    assert(p.wf());
    let f = p.faults;
    rng::lemma_scaled_below(
        rng::output(s.fault_rng),
        (f.restart_delay_hi_ns - f.restart_delay_lo_ns + 1) as u64,
    );
}

/// A crash kills: the process is dead, none of its threads runs again, and its
/// next life is registered where its settings ask for restarts at all.
#[verifier::rlimit(40)]
pub proof fn a_crash_kills(s: StateView, victim: int)
    requires
        s.wf(),
        0 <= victim < s.procs.len(),
    ensures
        ({
            let after = s.crashed(victim);
            let again = s.procs[victim].faults.restart != RESTART_NEVER && may_return(s, victim);
            &&& after.procs[victim].killed
            &&& after.procs[victim].crash_at == 0
            &&& forall|i: int|
                0 <= i < s.threads.len() && s.threads[i].pid == victim ==> (
                #[trigger] after.threads[i]).state == T_EXITED
            &&& forall|i: int|
                0 <= i < s.threads.len() && s.threads[i].pid != victim && s.threads[i].state
                    == T_RUNNABLE ==> (#[trigger] after.threads[i]).state == T_RUNNABLE
            &&& again ==> lives_again(s, victim, s.clock_ns, after)
            &&& !again ==> after.procs.len() == s.procs.len() && after.threads.len()
                == s.threads.len()
        }),
{
    let b = choice::struck(s, victim);
    choice::lemma_struck(s, victim);
    assert(s.crashed(victim) == b || s.crashed(victim) == b.restart_registered(victim));
    lemma_struck_threads(s, victim);
    let p = b.procs[victim];
    assert(s.procs[victim].wf());
    let f = p.faults;
    assert(f == s.procs[victim].faults);
    let r = b.restart_registered(victim);
    assert(may_return(b, victim) == may_return(s, victim));
    rng::lemma_scaled_below(
        rng::output(b.fault_rng),
        (f.restart_delay_hi_ns - f.restart_delay_lo_ns + 1) as u64,
    );
    rng::lemma_scaled_below(
        rng::output(rng::advanced(b.fault_rng)),
        (f.crash_hi_ns - f.crash_lo_ns + 1) as u64,
    );
    lemma_restart_keeps(b, victim);
    if may_return(b, victim) {
        lemma_lives_again(b, victim);
        assert(lives_again(s, victim, s.clock_ns, r));
    }
}

#[verifier::rlimit(40)]
proof fn lemma_lives_again(s: StateView, victim: int)
    requires
        0 <= victim < s.procs.len(),
        s.procs[victim].wf(),
        may_return(s, victim),
    ensures
        lives_again(s, victim, s.clock_ns, s.restart_registered(victim)),
{
    let p = s.procs[victim];
    let f = p.faults;
    rng::lemma_scaled_below(
        rng::output(s.fault_rng),
        (f.restart_delay_hi_ns - f.restart_delay_lo_ns + 1) as u64,
    );
    rng::lemma_scaled_below(
        rng::output(rng::advanced(s.fault_rng)),
        (f.crash_hi_ns - f.crash_lo_ns + 1) as u64,
    );
}

proof fn lemma_restart_keeps(s: StateView, victim: int)
    requires
        0 <= victim < s.procs.len(),
    ensures
        ({
            let r = s.restart_registered(victim);
            &&& forall|i: int|
                0 <= i < s.threads.len() ==> #[trigger] r.threads[i] == s.threads[i]
            &&& r.procs[victim] == (ProcRec {
                replaced_by: r.procs[victim].replaced_by,
                ..s.procs[victim]
            })
        }),
{
}

proof fn lemma_struck_threads(s: StateView, pid: int)
    requires
        0 <= pid < s.procs.len() <= MAX_PROCS,
    ensures
        forall|i: int|
            0 <= i < s.threads.len() && s.threads[i].pid == pid ==> (#[trigger] choice::struck(
                s,
                pid,
            ).threads[i]).state == T_EXITED,
        forall|i: int|
            0 <= i < s.threads.len() && s.threads[i].pid != pid && s.threads[i].state
                == T_RUNNABLE ==> (#[trigger] choice::struck(s, pid).threads[i]).state
                == T_RUNNABLE,
{
}

/// Who comes back after an exit: always, where the settings say so; after a
/// failure only, where they say that; else never. The dead one has its status
/// and runs nothing.
#[verifier::rlimit(40)]
pub proof fn an_exit_is_final(s: StateView, pid: int, status: i32)
    requires
        s.wf(),
        0 <= pid < s.procs.len(),
    ensures
        ({
            let after = s.bereft(pid, status);
            let mode = s.procs[pid].faults.restart;
            let again = (mode == RESTART_ALWAYS || mode == RESTART_ON_FAILURE && status != 0)
                && may_return(s, pid);
            &&& after.procs[pid].state == P_EXITED
            &&& after.procs[pid].exit_status == status
            &&& after.procs[pid].crash_at == 0
            &&& forall|i: int|
                0 <= i < s.threads.len() && s.threads[i].pid == pid ==> (
                #[trigger] after.threads[i]).state == T_EXITED
            &&& again ==> after.procs.len() == s.procs.len() + 1 && after.threads.len()
                == s.threads.len() + 1 && after.procs[pid].replaced_by == s.procs.len()
                && after.procs[s.procs.len() as int].restart_of == pid
                && after.threads[s.threads.len() as int].state == T_BLOCKED
                && after.threads[s.threads.len() as int].key == RESTART_KEY
                && after.threads[s.threads.len() as int].deadline == s.restart_registered(
                pid,
            ).threads[s.threads.len() as int].deadline
            &&& !again ==> after.procs.len() == s.procs.len() && after.threads.len()
                == s.threads.len()
        }),
{
    let a = if s.procs[pid].comes_back(status) {
        s.restart_registered(pid)
    } else {
        s
    };
    lemma_restart_keeps(s, pid);
    assert(s.procs[pid].wf());
    if may_return(s, pid) {
        lemma_lives_again(s, pid);
    }
    let b = a.with_proc(
        pid,
        ProcRec { state: P_EXITED, exit_status: status, crash_at: 0, ..a.procs[pid] },
    );
    let c = b.hung_up(pid as u32);
    let d = c.parent_woken(pid);
    let last = s.threads.len() as int;
    if a.threads.len() > s.threads.len() {
        assert(a.threads[last].key == RESTART_KEY);
        assert(c.threads[last] == a.threads[last]);
        assert(d.threads[last] == a.threads[last]);
        assert(a.threads[last].pid == s.procs.len());
    }
}

/// A first life with crashes to come has one that far into it as its settings
/// say, and none without.
pub proof fn a_crash_comes_when_it_was_said(
    s: StateView,
    pid: int,
    faults: Faults,
    spec_index: u32,
)
    requires
        s.wf(),
        0 <= pid < s.procs.len(),
        faults.wf(),
    ensures
        ({
            let p = s.faults_set(pid, faults, spec_index).procs[pid];
            &&& p.faults == faults
            &&& p.spec == spec_index
            &&& faults.crash_hi_ns == 0 || faults.crashes_left == 0 ==> p.crash_at == 0
            &&& faults.crash_hi_ns != 0 && faults.crashes_left != 0 && s.clock_ns
                + faults.crash_hi_ns <= u64::MAX ==> p.crash_at != 0 && s.clock_ns
                + faults.crash_lo_ns <= p.crash_at && (p.crash_at <= s.clock_ns
                + faults.crash_hi_ns)
        }),
{
    rng::lemma_scaled_below(
        rng::output(s.fault_rng),
        (faults.crash_hi_ns - faults.crash_lo_ns + 1) as u64,
    );
}

/// An injected crash uses up one of those that were to come, and its pid is to
/// be signaled.
#[verifier::rlimit(40)]
pub proof fn a_crash_is_used_up(s: StateView, pid: int)
    requires
        s.wf(),
        0 <= pid < s.procs.len(),
        s.procs[pid].faults.crashes_left > 0,
    ensures
        ({
            let after = s.condemned(pid);
            let left = s.procs[pid].faults.crashes_left;
            &&& after.procs[pid].killed
            &&& after.kills == s.kills.push(s.procs[pid].real_pid)
            &&& after.crashes_injected == s.crashes_injected.wrapping_add(1)
            &&& after.procs[pid].faults.crashes_left == (if left == NO_LIMIT {
                left as int
            } else {
                left - 1
            })
        }),
{
    let p = s.procs[pid];
    let left = if p.faults.crashes_left == NO_LIMIT {
        NO_LIMIT
    } else {
        (p.faults.crashes_left - 1) as u32
    };
    let faults = Faults { crashes_left: left, ..p.faults };
    let a = s.with_proc(pid, ProcRec { faults, crash_at: 0, ..p });
    choice::lemma_struck(a, pid);
    let b = choice::struck(a, pid);
    lemma_restart_keeps(b, pid);
    assert(a.crashed(pid) == b || a.crashed(pid) == b.restart_registered(pid));
    choice::lemma_restart(b, pid);
    assert(b.restart_registered(pid).crashes_injected == b.crashes_injected);
}

/// Waking a key wakes everybody of the process that waits for it, and nobody
/// else; waking for I/O wakes everybody who waits for that.
pub proof fn a_wake_reaches_who_waits(s: StateView, pid: u32, key: u64, i: int)
    requires
        0 <= i < s.threads.len(),
    ensures
        ({
            let t = s.threads[i];
            let a = s.key_woken(pid, key).threads[i];
            let b = s.io_woken().threads[i];
            &&& t.state == T_BLOCKED && t.pid == pid && t.key == key ==> a.state == T_RUNNABLE
            &&& !(t.state == T_BLOCKED && t.pid == pid && t.key == key) ==> a == t
            &&& t.state == T_BLOCKED && t.key == IO_KEY ==> b.state == T_RUNNABLE
            &&& !(t.state == T_BLOCKED && t.key == IO_KEY) ==> b == t
            &&& a == (ThreadRec { state: a.state, ..t })
            &&& b == (ThreadRec { state: b.state, ..t })
        }),
        s.key_woken(pid, key).threads.len() == s.threads.len(),
        s.io_woken().threads.len() == s.threads.len(),
        s.key_woken(pid, key).procs == s.procs,
        s.key_woken(pid, key).clock_ns == s.clock_ns,
        s.key_woken(pid, key).rng == s.rng,
{
}

/// How many a wake reports is how many it woke.
pub proof fn a_wake_counts_whom_it_woke(s: StateView, pid: u32, key: u64)
    ensures
        waiting::count_waiting(s.threads, pid, key, s.threads.len() as int) == s.threads.filter(
            |t: ThreadRec| t.state == T_BLOCKED && t.pid == pid && t.key == key,
        ).len(),
{
    lemma_count_waiting(s.threads, pid, key, s.threads.len() as int);
    assert(s.threads.take(s.threads.len() as int) =~= s.threads);
}

proof fn lemma_count_waiting(threads: Seq<ThreadRec>, pid: u32, key: u64, n: int)
    requires
        0 <= n <= threads.len(),
    ensures
        waiting::count_waiting(threads, pid, key, n) == threads.take(n).filter(
            |t: ThreadRec| t.state == T_BLOCKED && t.pid == pid && t.key == key,
        ).len(),
    decreases n,
{
    reveal(Seq::filter);
    if n > 0 {
        lemma_count_waiting(threads, pid, key, n - 1);
        assert(threads.take(n).drop_last() =~= threads.take(n - 1));
        assert(threads.take(n).last() == threads[n - 1]);
    }
}

/// A broadcast takes everybody off the condition variable and wakes them; a
/// signal takes one thread off, the one that was queued first, and nobody
/// else; nobody who is queued elsewhere is touched by either.
#[verifier::rlimit(40)]
pub proof fn a_condition_wakes_its_queue(s: StateView, pid: u32, cond: u64, i: int)
    requires
        0 <= i < s.threads.len(),
    ensures
        ({
            let t = s.threads[i];
            let mine = t.pid == pid && t.cond_key == cond && t.state != T_EXITED;
            let a = s.all_signaled(pid, cond).threads[i];
            let one = s.one_signaled(pid, cond);
            let b = one.threads[i];
            &&& mine ==> a.signaled && a.cond_key == 0 && a.state != T_BLOCKED
            &&& mine && t.state == T_BLOCKED ==> a.state == T_RUNNABLE
            &&& !mine ==> a == t && b == t
            &&& mine && b != t ==> b.signaled && b.cond_key == 0 && b.state != T_BLOCKED && forall|
                k: int,
            |
                0 <= k < s.threads.len() && (#[trigger] s.threads[k]).pid == pid
                    && s.threads[k].cond_key == cond && s.threads[k].state != T_EXITED
                    ==> t.cond_seq <= s.threads[k].cond_seq && (k != i ==> one.threads[k]
                    == s.threads[k])
            &&& mine ==> exists|k: int|
                0 <= k < s.threads.len() && (#[trigger] one.threads[k]).signaled
                    && one.threads[k].cond_key == 0 && s.threads[k].pid == pid
                    && s.threads[k].cond_key == cond && s.threads[k].state != T_EXITED
        }),
{
    let n = s.threads.len() as int;
    waiting::lemma_longest(s.threads, pid, cond, n);
    let one = s.one_signaled(pid, cond);
    if s.threads[i].queued(pid, cond) {
        super::laws::the_first_queued_is_signaled(s, pid, cond, i);
        let first = waiting::longest(s.threads, pid, cond, n).unwrap();
        assert(one.threads[first] == s.threads[first].signal());
        if one.threads[i] != s.threads[i] {
            assert(i == first);
            assert forall|k: int|
                0 <= k < s.threads.len() && (#[trigger] s.threads[k]).pid == pid
                    && s.threads[k].cond_key == cond && s.threads[k].state
                    != T_EXITED implies s.threads[i].cond_seq <= s.threads[k].cond_seq && (k != i
                ==> one.threads[k] == s.threads[k]) by {
                super::laws::the_first_queued_is_signaled(s, pid, cond, k);
            }
        }
    }
}

/// A child that a `waitpid` may find
pub open spec fn can_be_found(s: StateView, me: u32, vpid: i32, c: int) -> bool {
    &&& 0 <= c < s.procs.len()
    &&& s.procs[c].parent == me
    &&& !s.procs[c].reaped
    &&& vpid > 0 ==> vpid == VPID_BASE + c
}

/// `waitpid` finds a child that is gone and was not collected, where there is
/// one, and collects it; it says that there is no child exactly where none is
/// left, and waits, or again with nothing, where those left are alive.
pub proof fn waiting_finds_who_is_gone(s: StateView, me: u32, vpid: i32, nohang: bool, c: int)
    requires
        s.wf(),
        vpid <= 0 || vpid >= VPID_BASE,
    ensures
        ({
            let (after, r) = s.waits(me, vpid, nohang);
            let gone = |p: ProcRec| p.state == P_EXITED || p.killed;
            &&& can_be_found(s, me, vpid, c) && gone(s.procs[c]) ==> r is Found
            &&& r is Found ==> {
                let k = r->Found_0 as int;
                &&& can_be_found(s, me, vpid, k)
                &&& gone(s.procs[k])
                &&& r->Found_1 == s.procs[k].real_pid
                &&& after.procs == s.procs.update(k, ProcRec { reaped: true, ..s.procs[k] })
            }
            &&& can_be_found(s, me, vpid, c) ==> !(r is NoChild)
            &&& r is NoChild ==> !can_be_found(s, me, vpid, c)
            &&& r is Nothing ==> nohang
            &&& r is Park ==> !nohang
            &&& !(r is Kernel)
            &&& !(r is Found) ==> after == s
            &&& r is Park || r is Nothing ==> exists|k: int| #[trigger]
                can_be_found(s, me, vpid, k)
        }),
{
    let which = if vpid > 0 {
        super::proc_named(vpid)
    } else {
        None
    };
    lemma_exited(s.procs, me, which, 0, c);
    let (after, r) = s.waits(me, vpid, nohang);
    if can_be_found(s, me, vpid, c) {
        assert(waiting::child_left(s.procs[c], me, which, c));
    }
    if r is Park || r is Nothing {
        let k = choose|i: int|
            0 <= i < s.procs.len() && waiting::child_left(#[trigger] s.procs[i], me, which, i);
        assert(can_be_found(s, me, vpid, k));
    }
}

proof fn lemma_exited(procs: Seq<ProcRec>, parent: u32, which: Option<u32>, i: int, c: int)
    requires
        0 <= i,
        procs.len() <= MAX_PROCS,
    ensures
        match waiting::exited_from(procs, parent, which, i) {
            Some(k) => i <= k < procs.len() && waiting::child_left(
                procs[k as int],
                parent,
                which,
                k as int,
            ) && (procs[k as int].state == P_EXITED || procs[k as int].killed),
            None => i <= c < procs.len() && waiting::child_left(procs[c], parent, which, c)
                ==> procs[c].state != P_EXITED && !procs[c].killed,
        },
    decreases procs.len() - i,
{
    if i < procs.len() {
        lemma_exited(procs, parent, which, i + 1, c);
    }
}

/// What `kill` does to another process: the two signals that end it end it,
/// zero only asks, any other waits for it; the dead cannot be killed.
#[verifier::rlimit(40)]
pub proof fn a_kill_does_what_its_signal_says(s: StateView, me: u32, target: u32, sig: i32)
    requires
        s.wf(),
        target < MAX_PROCS,
        target != me,
    ensures
        ({
            let vpid = (VPID_BASE + target) as i32;
            let (after, r) = s.kills(me, vpid, sig);
            let alive = target < s.procs.len() && s.procs[target as int].state != P_EXITED
                && !s.procs[target as int].killed;
            &&& !alive ==> r == Killed::NoProcess && after == s
            &&& alive && sig == 0 ==> r == Killed::Exists && after == s
            &&& alive && (sig == 9 || sig == 15) ==> r == Killed::Fatal(target)
                && after.procs[target as int].killed && forall|i: int|
                0 <= i < s.threads.len() && s.threads[i].pid == target ==> (
                #[trigger] after.threads[i]).state == T_EXITED
            &&& alive && 1 <= sig < 32 && sig != 9 && sig != 15 ==> r == Killed::Queued(target)
                && after.pending_of(target)[sig as int] && after.procs == s.procs
            &&& alive && (sig < 0 || sig >= 32) ==> r == Killed::Invalid && after == s
        }),
{
    if target < s.procs.len() {
        a_crash_kills(s, target as int);
        if 1 <= sig < 32 {
            let p = super::sent::sig_place(target, sig as int);
            assert(target * 32 + sig < 32 * s.procs.len()) by (nonlinear_arith)
                requires
                    target < s.procs.len(),
                    0 <= sig < 32,
            {
            }
        }
    }
}

/// A child starts on its parent's host, with one thread that can run, and
/// touches nobody.
pub proof fn a_child_starts_ready(s: StateView, me: int)
    requires
        s.wf(),
        0 <= me < s.procs.len() < MAX_PROCS,
    ensures
        ({
            let after = s.child_added(me);
            let child = after.procs[s.procs.len() as int];
            let main = after.threads[s.threads.len() as int];
            &&& after.procs.len() == s.procs.len() + 1
            &&& after.threads.len() == s.threads.len() + 1
            &&& after.procs.drop_last() == s.procs
            &&& after.threads.drop_last() == s.threads
            &&& child.host == s.procs[me].host
            &&& child.parent == me
            &&& child.state == P_STARTING
            &&& !child.reaped
            &&& !child.killed
            &&& main.pid == s.procs.len()
            &&& main.state == T_RUNNABLE
            &&& main.deadline == 0
        }),
{
    let after = s.child_added(me);
    assert(after.procs.drop_last() =~= s.procs);
    assert(after.threads.drop_last() =~= s.threads);
}

/// A thread that is registered can run, waits for nothing, and is its process's.
pub proof fn a_new_thread_can_run(s: StateView, pid: u32)
    ensures
        ({
            let after = s.thread_added(pid);
            let t = after.threads[s.threads.len() as int];
            &&& after.threads.len() == s.threads.len() + 1
            &&& after.threads.drop_last() == s.threads
            &&& t.pid == pid
            &&& t.state == T_RUNNABLE
            &&& t.deadline == 0
            &&& t.cond_key == 0
            &&& !t.parked
            &&& !t.signaled
            &&& !t.timed_out
        }),
{
    assert(s.thread_added(pid).threads.drop_last() =~= s.threads);
}

/// A child that never came to be is gone: it has exited, was collected, and none
/// of its threads runs; nobody else is touched.
pub proof fn a_child_that_never_was_is_gone(s: StateView, child: int, i: int)
    requires
        0 <= child < s.procs.len() <= MAX_PROCS,
        0 <= i < s.threads.len(),
    ensures
        s.child_gone(child).procs[child].state == P_EXITED,
        s.child_gone(child).procs[child].reaped,
        s.threads[i].pid == child ==> s.child_gone(child).threads[i].state == T_EXITED,
        s.threads[i].pid != child ==> s.child_gone(child).threads[i] == s.threads[i],
        forall|k: int|
            0 <= k < s.procs.len() && k != child ==> #[trigger] s.child_gone(child).procs[k]
                == s.procs[k],
{
}

/// The thread of a handle is the last that has it, and how many threads a
/// process has is how many are its own.
pub proof fn a_handle_names_its_last_thread(threads: Seq<ThreadRec>, pid: u32, pthread: u64, i: int)
    requires
        threads.len() <= MAX_THREADS,
        0 <= i < threads.len(),
        threads[i].pid == pid,
        threads[i].pthread == pthread,
        forall|k: int|
            i < k < threads.len() ==> !((#[trigger] threads[k]).pid == pid && threads[k].pthread
                == pthread),
    ensures
        waiting::last_with(threads, pid, pthread, threads.len() as int) == Some(i as usize),
        waiting::count_of(threads, pid, threads.len() as int) == threads.filter(
            |t: ThreadRec| t.pid == pid,
        ).len(),
{
    lemma_last_with(threads, pid, pthread, i, threads.len() as int);
    lemma_count_of(threads, pid, threads.len() as int);
    assert(threads.take(threads.len() as int) =~= threads);
}

proof fn lemma_last_with(threads: Seq<ThreadRec>, pid: u32, pthread: u64, i: int, n: int)
    requires
        0 <= i < n <= threads.len() <= MAX_THREADS,
        threads[i].pid == pid,
        threads[i].pthread == pthread,
        forall|k: int|
            i < k < threads.len() ==> !((#[trigger] threads[k]).pid == pid && threads[k].pthread
                == pthread),
    ensures
        waiting::last_with(threads, pid, pthread, n) == Some(i as usize),
    decreases n,
{
    if i < n - 1 {
        assert(!(threads[n - 1].pid == pid && threads[n - 1].pthread == pthread));
        lemma_last_with(threads, pid, pthread, i, n - 1);
    }
}

proof fn lemma_count_of(threads: Seq<ThreadRec>, pid: u32, n: int)
    requires
        0 <= n <= threads.len(),
    ensures
        waiting::count_of(threads, pid, n) == threads.take(n).filter(
            |t: ThreadRec| t.pid == pid,
        ).len(),
    decreases n,
{
    reveal(Seq::filter);
    if n > 0 {
        lemma_count_of(threads, pid, n - 1);
        assert(threads.take(n).drop_last() =~= threads.take(n - 1));
        assert(threads.take(n).last() == threads[n - 1]);
    }
}

/// A wait that ends by its deadline says so, and one whose time has not come goes
/// on as it was.
pub proof fn a_wait_that_is_over_says_so(s: StateView, i: int)
    requires
        0 <= i < s.threads.len(),
    ensures
        ({
            let t = s.threads[i];
            let a = s.expired().threads[i];
            let over = t.state == T_BLOCKED && t.deadline != 0 && t.deadline <= s.clock_ns;
            &&& over ==> a.state == T_RUNNABLE && a.timed_out && a.deadline == 0 && a.key == t.key
                && a.pid == t.pid
            &&& !over ==> a == t
        }),
{
}

/// A parent that waits for its children looks again when one of them crashes or
/// exits.
pub proof fn a_waiting_parent_looks_again(s: StateView, pid: int, status: i32, i: int)
    requires
        s.wf(),
        0 <= pid < s.procs.len(),
        0 <= i < s.threads.len(),
        s.procs[pid].parent != NO_PROC,
        s.procs[pid].parent != pid,
        s.threads[i].pid == s.procs[pid].parent,
        s.threads[i].state == T_BLOCKED,
        s.threads[i].key == WAIT_KEY,
    ensures
        s.crashed(pid).threads[i].state == T_RUNNABLE,
        s.bereft(pid, status).threads[i].state == T_RUNNABLE,
{
    let parent = s.procs[pid].parent;
    let a = s.retired(pid as u32);
    let b = a.with_proc(pid, ProcRec { killed: true, crash_at: 0, ..a.procs[pid] });
    let c = b.hung_up(pid as u32);
    assert(c.procs[pid].parent == parent);
    assert(c.threads[i] == s.threads[i] || c.threads[i].state == T_RUNNABLE);
    let d = c.parent_woken(pid);
    assert(d.threads[i].state == T_RUNNABLE);
    let e = d.loss_noted(pid);
    assert(e.threads[i].state == T_RUNNABLE);
    lemma_restart_keeps(e, pid);
    let r = if s.procs[pid].comes_back(status) {
        s.restart_registered(pid)
    } else {
        s
    };
    lemma_restart_keeps(s, pid);
    assert(r.threads[i] == s.threads[i]);
    assert(r.procs[pid].parent == parent);
    let f = r.with_proc(
        pid,
        ProcRec { state: P_EXITED, exit_status: status, crash_at: 0, ..r.procs[pid] },
    ).hung_up(pid as u32);
    assert(f.threads[i] == s.threads[i] || f.threads[i].state == T_RUNNABLE);
    assert(f.procs[pid].parent == parent);
    assert(f.parent_woken(pid).threads[i].state == T_RUNNABLE);
}

} // verus!
