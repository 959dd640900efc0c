//! What a guest's thread does with its turn: it attaches, gives the baton up
//! and takes it back, waits on condition variables and for other threads.

use vstd::prelude::*;
use super::waiting;
use super::{
    ProcRec, State, StateView, ThreadRec, IO_KEY, P_LIVE, RESTART_KEY, SLEEP_KEY, T_BLOCKED,
    T_EXITED, T_RUNNABLE, WAIT_KEY,
};
use crate::sched;
use crate::sched::After;
use crate::text;
use crate::text::{push_decimal, push_hex};

verus! {

/// What became of giving up the baton
#[derive(Debug, Clone, Copy, PartialEq, Eq, Structural)]
pub enum Yielded {
    /// The caller does not hold it: it must not hand over what it lacks.
    NotHeld,
    /// A wake from outside the schedule came since the caller decided to
    /// block: let it look again.
    LookAgain,
    /// It is given up. `stuck`: an idle run is a deadlock, unless the caller
    /// was the last to go.
    Given { after: After, stuck: bool },
}

/// The state and key that a thread is left in
pub open spec fn left_in(state: sched::State) -> (u32, u64) {
    match state {
        sched::State::Runnable => (T_RUNNABLE, 0),
        sched::State::Blocked(key) => (T_BLOCKED, key),
        sched::State::Exited => (T_EXITED, 0),
    }
}

/// A deadline as it is kept: 0 would mean none, and one in the past expires
/// at once.
pub open spec fn kept_deadline(deadline: Option<u64>) -> u64 {
    match deadline {
        Some(d) => if d == 0 {
            1
        } else {
            d
        },
        None => 0,
    }
}

/// The first thread of `pid` from `i` on that has not exited
pub open spec fn alive_from(threads: Seq<ThreadRec>, pid: u32, i: int) -> Option<int>
    decreases threads.len() - i,
{
    if i < 0 || i >= threads.len() {
        None
    } else if threads[i].pid == pid && threads[i].state != T_EXITED {
        Some(i)
    } else {
        alive_from(threads, pid, i + 1)
    }
}

impl StateView {
    /// What a hand-off decided for process `pid`
    pub open spec fn after(self, handoff: super::Handoff, pid: u32) -> After {
        After {
            handoff,
            quantum: self.pending_quantum,
            issued: self.issued,
            clock: self.clock_ns,
            crashed_self: pid < self.procs.len() && self.procs[pid as int].killed,
        }
    }

    /// Some thread of the run has not exited.
    pub open spec fn has_threads(self) -> bool {
        exists|i: int| 0 <= i < self.threads.len() && (#[trigger] self.threads[i]).state != T_EXITED
    }

    /// With the thread ready to give up the baton
    pub open spec fn giving_up(self, pid: u32, me: int, blocking: bool) -> (StateView, bool) {
        let wakes = self.procs[pid as int].outside_wakes;
        let t = self.threads[me];
        if blocking {
            (
                self.with_thread(me, ThreadRec { timed_out: false, wakes_seen: wakes, ..t }),
                t.wakes_seen != wakes,
            )
        } else {
            (self.with_thread(me, ThreadRec { timed_out: false, ..t }), false)
        }
    }

    /// The baton given up by thread `me` of process `pid`, at `site`
    pub open spec fn yielded(
        self,
        pid: u32,
        me: int,
        state: sched::State,
        site: u64,
        deadline: Option<u64>,
    ) -> (StateView, Yielded) {
        if self.current != me {
            (self, Yielded::NotHeld)
        } else {
            let (ready, look_again) = self.giving_up(pid, me, state is Blocked);
            if look_again {
                (ready, Yielded::LookAgain)
            } else {
                let waiting = ready.with_thread(
                    me,
                    ThreadRec { deadline: kept_deadline(deadline), ..ready.threads[me] },
                );
                let (st, key) = left_in(state);
                let (s, handoff) = waiting.handed_off(Some((me as usize, st, key)), site);
                (
                    s,
                    Yielded::Given {
                        after: s.after(handoff, pid),
                        stuck: state != sched::State::Exited || s.has_threads(),
                    },
                )
            }
        }
    }

    /// Process `pid` has attached: it runs as `real_pid`, and its thread `me` is
    /// `pthread` there.
    pub open spec fn attached(self, pid: int, me: int, pthread: u64, real_pid: i32) -> StateView {
        self.with_thread(me, ThreadRec { pthread, ..self.threads[me] }).with_proc(
            pid,
            ProcRec { real_pid, state: P_LIVE, ..self.procs[pid] },
        )
    }
}

impl State {
    /// The thread a process that attaches takes up. After an exec the
    /// process has older, retired threads: it is the one still alive.
    pub fn own_thread(&self, pid: u32) -> (r: Option<usize>)
        ensures
            match r {
                Some(i) => i < self@.threads.len() && alive_from(self@.threads, pid, 0) == Some(
                    i as int,
                ),
                None => alive_from(self@.threads, pid, 0) is None,
            },
    {
        let mut i: usize = 0;
        while i < self.threads.len()
            invariant
                i <= self.threads@.len(),
                alive_from(self.threads@, pid, 0) == alive_from(self.threads@, pid, i as int),
            decreases self.threads@.len() - i,
        {
            if self.threads[i].pid == pid && self.threads[i].state != T_EXITED {
                return Some(i);
            }
            i += 1;
        }
        None
    }

    /// Attach process `pid`. False when it was killed before it could: all
    /// that is left is to go the way a crash goes.
    pub fn attach(&mut self, pid: u32, me: usize, pthread: u64, real_pid: i32) -> (r: bool)
        requires
            old(self).wf(),
            pid < old(self)@.procs.len(),
            me < old(self)@.threads.len(),
        ensures
            final(self).wf(),
            r == !old(self)@.procs[pid as int].killed,
            final(self)@ == (if r {
                old(self)@.attached(pid as int, me as int, pthread, real_pid)
            } else {
                old(self)@
            }),
    {
        if self.procs[pid as usize].killed {
            return false;
        }
        let mut t: ThreadRec = self.threads[me];
        t.pthread = pthread;
        self.threads.set(me, t);
        let mut p: ProcRec = self.procs[pid as usize];
        assert(self@.procs[pid as int].wf());
        p.real_pid = real_pid;
        p.state = P_LIVE;
        self.set_proc(pid, p);
        true
    }

    /// Give up the baton with `state` recorded for the calling thread.
    /// `site` names the switch point for the schedule trace: the stub
    /// address on quantum expiry, the blocked-on address for blocking calls.
    pub fn yield_baton(
        &mut self,
        pid: u32,
        me: usize,
        state: sched::State,
        site: u64,
        deadline: Option<u64>,
    ) -> (r: Yielded)
        requires
            old(self).wf(),
            pid < old(self)@.procs.len(),
            me < old(self)@.threads.len(),
        ensures
            final(self).wf(),
            (final(self)@, r) == old(self)@.yielded(pid, me as int, state, site, deadline),
    {
        if self.current as usize != me {
            return Yielded::NotHeld;
        }
        let ghost before = self@;
        let mut t: ThreadRec = self.threads[me];
        t.timed_out = false;
        let mut blocking: bool = false;
        if let sched::State::Blocked(_) = state {
            blocking = true;
        }
        if blocking {
            let wakes: u64 = self.procs[pid as usize].outside_wakes;
            let seen: u64 = t.wakes_seen;
            t.wakes_seen = wakes;
            self.threads.set(me, t);
            assert(self@ =~= before.giving_up(pid, me as int, true).0);
            if seen != wakes {
                return Yielded::LookAgain;
            }
        } else {
            self.threads.set(me, t);
            assert(self@ =~= before.giving_up(pid, me as int, false).0);
        }
        t.deadline = match deadline {
            Some(d) => if d == 0 {
                1
            } else {
                d
            },
            None => 0,
        };
        let ghost ready = self@;
        self.threads.set(me, t);
        assert(self@ =~= ready.with_thread(
            me as int,
            ThreadRec { deadline: kept_deadline(deadline), ..ready.threads[me as int] },
        ));
        let (st, key): (u32, u64) = match state {
            sched::State::Runnable => (T_RUNNABLE, 0),
            sched::State::Blocked(k) => (T_BLOCKED, k),
            sched::State::Exited => (T_EXITED, 0),
        };
        let handoff = self.hand_off(Some((me, st, key)), site);
        let stuck: bool = state != sched::State::Exited || self.any_alive();
        let after = self.after(handoff, pid);
        Yielded::Given { after, stuck }
    }

    /// Whether thread `me` holds the baton
    pub fn baton_is_mine(&self, me: usize) -> (r: bool)
        ensures
            r == (self@.current == me),
    {
        self.current as usize == me
    }

    /// What a hand-off decided, for a thread of process `pid`
    pub fn after(&self, handoff: super::Handoff, pid: u32) -> (r: After)
        ensures
            r == self@.after(handoff, pid),
    {
        After {
            handoff,
            quantum: self.pending_quantum,
            issued: self.issued,
            clock: self.clock_ns,
            crashed_self: (pid as usize) < self.procs.len() && self.procs[pid as usize].killed,
        }
    }

    /// Whether the deadline ended the wait of thread `me`. It is told once.
    pub fn take_timed_out(&mut self, me: usize) -> (r: bool)
        requires
            old(self).wf(),
            me < old(self)@.threads.len(),
        ensures
            final(self).wf(),
            r == old(self)@.threads[me as int].timed_out,
            final(self)@ == old(self)@.with_thread(
                me as int,
                ThreadRec { timed_out: false, ..old(self)@.threads[me as int] },
            ),
    {
        let mut t: ThreadRec = self.threads[me];
        let r: bool = t.timed_out;
        t.timed_out = false;
        self.threads.set(me, t);
        r
    }

    /// Whether thread `me` was signaled. It is told once. After a deadline
    /// the thread leaves the queue; a signal that raced it still counts.
    pub fn take_signaled(&mut self, me: usize, leaving: bool) -> (r: bool)
        requires
            old(self).wf(),
            me < old(self)@.threads.len(),
        ensures
            final(self).wf(),
            r == old(self)@.threads[me as int].signaled,
            final(self)@ == old(self)@.with_thread(
                me as int,
                (if leaving {
                    ThreadRec { signaled: false, cond_key: 0, ..old(self)@.threads[me as int] }
                } else {
                    ThreadRec { signaled: false, ..old(self)@.threads[me as int] }
                }),
            ),
    {
        let mut t: ThreadRec = self.threads[me];
        let r: bool = t.signaled;
        t.signaled = false;
        if leaving {
            t.cond_key = 0;
        }
        self.threads.set(me, t);
        r
    }

    /// The thread a join has to wait for: the latest of `pid` with this
    /// handle, unless it has exited
    pub fn to_join(&self, pid: u32, pthread: u64) -> (r: Option<usize>)
        requires
            self.wf(),
        ensures
            r == (match waiting::last_with(
                self@.threads,
                pid,
                pthread,
                self@.threads.len() as int,
            ) {
                Some(i) => if self@.threads[i as int].state != T_EXITED {
                    Some(i)
                } else {
                    None
                },
                None => None,
            }),
    {
        proof {
            lemma_last_with(self@.threads, pid, pthread, self@.threads.len() as int);
        }
        match self.find_pthread(pid, pthread) {
            Some(i) => if self.threads[i].state != T_EXITED {
                Some(i)
            } else {
                None
            },
            None => None,
        }
    }

    /// A wake from a thread that the scheduler does not run
    pub fn note_outside_wake(&mut self, pid: u32)
        requires
            old(self).wf(),
            pid < old(self)@.procs.len(),
        ensures
            final(self).wf(),
            ({
                let p = old(self)@.procs[pid as int];
                final(self)@ == old(self)@.with_proc(
                    pid as int,
                    ProcRec {
                        outside_wakes: p.outside_wakes.wrapping_add(1),
                        has_outside_threads: true,
                        ..p
                    },
                )
            }),
    {
        let mut p: ProcRec = self.procs[pid as usize];
        assert(self@.procs[pid as int].wf());
        p.outside_wakes = p.outside_wakes.wrapping_add(1);
        p.has_outside_threads = true;
        self.set_proc(pid, p);
    }
}

proof fn lemma_last_with(threads: Seq<ThreadRec>, pid: u32, pthread: u64, n: int)
    requires
        n <= threads.len() <= usize::MAX,
    ensures
        waiting::last_with(threads, pid, pthread, n) matches Some(i) ==> i < n,
    decreases n,
{
    if n > 0 {
        lemma_last_with(threads, pid, pthread, n - 1);
    }
}

/// A thread that finds the count of outside wakes moved does not block: it
/// gives nothing up and keeps the baton.
pub proof fn a_wake_from_outside_is_not_missed(
    s: StateView,
    pid: u32,
    me: int,
    key: u64,
    site: u64,
    deadline: Option<u64>,
)
    requires
        s.current == me,
        0 <= me < s.threads.len(),
        s.threads[me].wakes_seen != s.procs[pid as int].outside_wakes,
    ensures
        ({
            let (after, r) = s.yielded(pid, me, sched::State::Blocked(key), site, deadline);
            &&& r == Yielded::LookAgain
            &&& after.current == me
            &&& after.threads[me].state == s.threads[me].state
            &&& after.threads[me].wakes_seen == s.procs[pid as int].outside_wakes
        }),
{
}

/// What a thread waits for
pub open spec fn awaited(key: u64) -> Seq<char> {
    if key == WAIT_KEY {
        "a child to exit"@
    } else if key == IO_KEY {
        "I/O (read, accept, poll, kevent…)"@
    } else if key == SLEEP_KEY {
        "a sleep"@
    } else if key == RESTART_KEY {
        "its restart delay"@
    } else {
        "a lock, condition or join at "@ + text::hex(key as nat)
    }
}

/// What is said of one blocked thread
pub open spec fn blocked_line(t: ThreadRec, id: int) -> Seq<char> {
    "\n  p"@ + text::decimal(t.pid as nat) + " t"@ + text::decimal(id as nat) + ": "@ + awaited(
        t.key,
    ) + (if t.deadline == 0 {
        Seq::empty()
    } else {
        " until "@ + text::decimal(t.deadline as nat) + " ns"@
    })
}

/// What is said of the first `n` threads
pub open spec fn blocked_lines(threads: Seq<ThreadRec>, n: int) -> Seq<char>
    decreases n,
{
    if n <= 0 {
        Seq::empty()
    } else {
        let before = blocked_lines(threads, n - 1);
        if threads[n - 1].state == T_BLOCKED {
            before + blocked_line(threads[n - 1], n - 1)
        } else {
            before
        }
    }
}

fn push_blocked(out: &mut String, t: &ThreadRec, id: usize)
    ensures
        final(out)@ == old(out)@ + blocked_line(*t, id as int),
{
    out.append("\n  p");
    push_decimal(out, t.pid as u64);
    out.append(" t");
    push_decimal(out, id as u64);
    out.append(": ");
    let ghost head = out@;
    if t.key == WAIT_KEY {
        out.append("a child to exit");
    } else if t.key == IO_KEY {
        out.append("I/O (read, accept, poll, kevent…)");
    } else if t.key == SLEEP_KEY {
        out.append("a sleep");
    } else if t.key == RESTART_KEY {
        out.append("its restart delay");
    } else {
        out.append("a lock, condition or join at ");
        push_hex(out, t.key);
    }
    assert(out@ =~= head + awaited(t.key));
    if t.deadline != 0 {
        out.append(" until ");
        push_decimal(out, t.deadline);
        out.append(" ns");
    }
    assert(out@ =~= old(out)@ + blocked_line(*t, id as int));
}

impl State {
    /// What each blocked thread of the run waits for, for the deadlock
    /// report
    pub fn describe_blocked(&self) -> (r: String)
        ensures
            r@ == "blocked threads at virtual time "@ + text::decimal(self@.clock_ns as nat)
                + " ns:"@ + blocked_lines(self@.threads, self@.threads.len() as int),
    {
        let mut out = String::new();
        out.append("blocked threads at virtual time ");
        push_decimal(&mut out, self.clock_ns);
        out.append(" ns:");
        let ghost head = out@;
        assert(head =~= "blocked threads at virtual time "@ + text::decimal(self@.clock_ns as nat)
            + " ns:"@);
        assert(head + blocked_lines(self.threads@, 0) =~= head);
        let mut i: usize = 0;
        while i < self.threads.len()
            invariant
                i <= self.threads@.len(),
                out@ == head + blocked_lines(self.threads@, i as int),
            decreases self.threads@.len() - i,
        {
            let ghost was = blocked_lines(self.threads@, i as int);
            let t: ThreadRec = self.threads[i];
            if t.state == T_BLOCKED {
                push_blocked(&mut out, &t, i);
                assert(out@ =~= head + (was + blocked_line(t, i as int)));
            }
            i += 1;
        }
        out
    }
}

/// A thread that gives up the baton is left as it said: only the holder can, one
/// that a wake from outside passed looks again before it blocks, and one that
/// blocks until a time has that time; unless it is picked, woken or killed at
/// once.
#[verifier::rlimit(40)]
pub proof fn a_thread_is_left_as_it_said(
    s: StateView,
    pid: u32,
    me: int,
    state: sched::State,
    site: u64,
    deadline: Option<u64>,
)
    requires
        s.wf(),
        0 <= me < s.threads.len(),
        pid < s.procs.len(),
        s.threads[me].pid == pid,
    ensures
        ({
            let (after, y) = s.yielded(pid, me, state, site, deadline);
            let t = after.threads[me];
            let killed = t.state == T_EXITED && after.procs[pid as int].killed;
            let goes_on = t.state == super::T_RUNNING || t.state == T_RUNNABLE || killed;
            let looks = state is Blocked && s.threads[me].wakes_seen
                != s.procs[pid as int].outside_wakes;
            &&& y is NotHeld <==> s.current != me
            &&& y is NotHeld ==> after == s
            &&& y is LookAgain <==> s.current == me && looks
            &&& y is LookAgain ==> t.state == s.threads[me].state && t.wakes_seen
                == s.procs[pid as int].outside_wakes && after.clock_ns == s.clock_ns
            &&& y is Given && state is Exited ==> t.state == T_EXITED
            &&& y is Given && state is Runnable ==> goes_on
            &&& y is Given && state is Blocked ==> goes_on || t.state == T_BLOCKED && (match deadline {
                Some(d) => t.deadline == d || d == 0 && t.deadline == 1,
                None => t.deadline == 0,
            })
        }),
{
    let (after, y) = s.yielded(pid, me, state, site, deadline);
    if s.current == me {
        let (ready, look_again) = s.giving_up(pid, me, state is Blocked);
        if !look_again {
            let waiting = ready.with_thread(
                me,
                ThreadRec { deadline: kept_deadline(deadline), ..ready.threads[me] },
            );
            let (st, key) = left_in(state);
            super::choice::nobody_is_forgotten(waiting, Some((me as usize, st, key)), site, me);
        }
    }
}

/// A process that attaches lives, under its real pid, and its thread has its
/// handle; nobody else is touched.
pub proof fn a_process_that_attaches_lives(
    s: StateView,
    pid: int,
    me: int,
    pthread: u64,
    real_pid: i32,
    i: int,
)
    requires
        0 <= pid < s.procs.len(),
        0 <= me < s.threads.len(),
        0 <= i,
    ensures
        ({
            let after = s.attached(pid, me, pthread, real_pid);
            &&& after.procs[pid].state == super::P_LIVE
            &&& after.procs[pid].real_pid == real_pid
            &&& after.procs[pid].killed == s.procs[pid].killed
            &&& after.procs[pid].crash_at == s.procs[pid].crash_at
            &&& after.threads[me].pthread == pthread
            &&& after.threads[me].state == s.threads[me].state
            &&& i < s.procs.len() && i != pid ==> after.procs[i] == s.procs[i]
            &&& i < s.threads.len() && i != me ==> after.threads[i] == s.threads[i]
        }),
{
}

/// The thread a process takes up is its first that has not exited.
pub proof fn a_process_takes_up_its_first_thread(
    threads: Seq<ThreadRec>,
    pid: u32,
    from: int,
    i: int,
)
    requires
        0 <= from <= i < threads.len(),
        threads[i].pid == pid,
        threads[i].state != T_EXITED,
        forall|k: int|
            from <= k < i ==> (#[trigger] threads[k]).pid != pid || threads[k].state == T_EXITED,
    ensures
        alive_from(threads, pid, from) == Some(i),
    decreases i - from,
{
    if from < i {
        assert(threads[from].pid != pid || threads[from].state == T_EXITED);
        a_process_takes_up_its_first_thread(threads, pid, from + 1, i);
    }
}

} // verus!
