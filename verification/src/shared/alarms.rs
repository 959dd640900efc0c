//! Interval timers. A process's timer is a deadline on the run's clock: at
//! that moment of the schedule its alarm signal waits for it, and a blocked
//! thread of it wakes.

use vstd::prelude::*;
use super::schedule;
use super::{ProcRec, State, StateView, ThreadRec, MAX_PROCS, P_EXITED, T_BLOCKED, T_RUNNABLE};
use crate::determinism;
use crate::determinism::{Alarm, NS_PER_SEC};

verus! {

pub const SIGALRM: i32 = 14;

impl ProcRec {
    /// It lives, and its timer is set.
    pub open spec fn is_timed(self) -> bool {
        self.alarm.at != 0 && self.state != P_EXITED && !self.killed
    }

    /// Its timer has run out.
    pub open spec fn alarm_due(self, now: u64) -> bool {
        self.is_timed() && self.alarm.at <= now
    }
}

/// The first blocked thread of `pid`, from number `i` on
pub open spec fn blocked_from(threads: Seq<ThreadRec>, pid: u32, i: int) -> Option<int>
    decreases threads.len() - i,
{
    if i < 0 || i >= threads.len() {
        None
    } else if threads[i].pid == pid && threads[i].state == T_BLOCKED {
        Some(i)
    } else {
        blocked_from(threads, pid, i + 1)
    }
}

/// When the first timer runs out of those of the first `n` processes that
/// have a thread to wake
pub open spec fn next_alarm_of(procs: Seq<ProcRec>, threads: Seq<ThreadRec>, n: int) -> Option<u64>
    decreases n,
{
    if n <= 0 {
        None
    } else {
        let before = next_alarm_of(procs, threads, n - 1);
        if procs[n - 1].is_timed() && blocked_from(threads, (n - 1) as u32, 0) is Some {
            schedule::sooner(before, Some(procs[n - 1].alarm.at))
        } else {
            before
        }
    }
}

impl StateView {
    /// A blocked thread of the process, the first, is awake.
    pub open spec fn one_awake(self, pid: u32) -> StateView {
        match blocked_from(self.threads, pid, 0) {
            Some(i) => self.with_thread(i, self.threads[i].awake()),
            None => self,
        }
    }

    /// The timer of the process has run out: its signal waits, and the timer
    /// starts over where it has an interval. A blocked thread of it wakes, and
    /// whoever watches the signal looks again.
    pub open spec fn rung(self, pid: int) -> StateView {
        let p = self.procs[pid];
        self.with_proc(pid, ProcRec { alarm: p.alarm.rung(), ..p }).sig_queued(
            pid as u32,
            SIGALRM as int,
        ).one_awake(pid as u32).io_woken()
    }

    /// Every timer that has run out of those from number `pid` up to `n` has
    /// rung.
    pub open spec fn rung_from(self, pid: int, n: int) -> StateView
        decreases n - pid,
    {
        if pid >= n {
            self
        } else if self.procs[pid].alarm_due(self.clock_ns) {
            self.rung(pid).rung_from(pid + 1, n)
        } else {
            self.rung_from(pid + 1, n)
        }
    }

    pub open spec fn alarms_rung(self) -> StateView {
        self.rung_from(0, self.procs.len() as int)
    }
}

impl State {
    fn first_blocked(&self, pid: u32) -> (r: Option<usize>)
        ensures
            match r {
                Some(i) => blocked_from(self@.threads, pid, 0) == Some(i as int) && i
                    < self@.threads.len() && self@.threads[i as int].state == T_BLOCKED,
                None => blocked_from(self@.threads, pid, 0) is None,
            },
    {
        let mut i: usize = 0;
        while i < self.threads.len()
            invariant
                i <= self.threads@.len(),
                self@.threads == self.threads@,
                blocked_from(self.threads@, pid, 0) == blocked_from(self.threads@, pid, i as int),
            decreases self.threads@.len() - i,
        {
            if self.threads[i].pid == pid && self.threads[i].state == T_BLOCKED {
                return Some(i);
            }
            i += 1;
        }
        None
    }

    fn ring(&mut self, pid: u32)
        requires
            old(self).wf(),
            pid < old(self)@.procs.len(),
        ensures
            final(self).wf(),
            final(self)@ == old(self)@.rung(pid as int),
            final(self)@.procs.len() == old(self)@.procs.len(),
    {
        let mut p: ProcRec = self.procs[pid as usize];
        p.alarm.ring();
        assert(self@.procs[pid as int].wf());
        self.set_proc(pid, p);
        self.queue_signal(pid, SIGALRM);
        match self.first_blocked(pid) {
            Some(i) => {
                let mut t: ThreadRec = self.threads[i];
                t.state = T_RUNNABLE;
                self.threads.set(i, t);
            },
            None => {},
        }
        self.wake_io();
        assert(self@ =~= old(self)@.rung(pid as int));
    }

    pub(super) fn ring_alarms(&mut self)
        requires
            old(self).wf(),
        ensures
            final(self).wf(),
            final(self)@ == old(self)@.alarms_rung(),
    {
        let n: u32 = self.procs.len() as u32;
        let mut pid: u32 = 0;
        while pid < n
            invariant
                self.wf(),
                pid <= n == self@.procs.len(),
                old(self)@.alarms_rung() == self@.rung_from(pid as int, n as int),
            decreases n - pid,
        {
            let p: ProcRec = self.procs[pid as usize];
            if p.alarm.at != 0 && p.state != P_EXITED && !p.killed && p.alarm.at <= self.clock_ns {
                self.ring(pid);
            }
            pid += 1;
        }
    }

    pub(super) fn next_alarm(&self) -> (r: Option<u64>)
        requires
            self.wf(),
        ensures
            r == next_alarm_of(self@.procs, self@.threads, self@.procs.len() as int),
    {
        let mut first: Option<u64> = None;
        let mut i: usize = 0;
        while i < self.procs.len()
            invariant
                self.wf(),
                i <= self.procs@.len() <= u32::MAX,
                self@.procs == self.procs@,
                first == next_alarm_of(self@.procs, self@.threads, i as int),
            decreases self.procs@.len() - i,
        {
            let p: ProcRec = self.procs[i];
            if p.alarm.at != 0 && p.state != P_EXITED && !p.killed && self.first_blocked(
                i as u32,
            ).is_some() {
                first = schedule::earlier(first, Some(p.alarm.at));
            }
            i += 1;
        }
        first
    }

    /// `setitimer` by process `pid`: what was left before, and the interval
    pub fn set_timer(&mut self, pid: u32, value: u64, interval: u64) -> (r: (u64, u64))
        requires
            old(self).wf(),
            pid < old(self)@.procs.len(),
            old(self)@.clock_ns + value < u64::MAX,
        ensures
            final(self).wf(),
            ({
                let p = old(self)@.procs[pid as int];
                &&& r == (p.alarm.left(old(self)@.clock_ns), p.alarm.interval)
                &&& final(self)@ == old(self)@.with_proc(
                    pid as int,
                    ProcRec {
                        alarm: if value == 0 {
                            (Alarm { at: 0, interval: 0 })
                        } else {
                            (Alarm { at: (old(self)@.clock_ns + value) as u64, interval })
                        },
                        ..p
                    },
                )
            }),
    {
        let mut p: ProcRec = self.procs[pid as usize];
        assert(self@.procs[pid as int].wf());
        let before = p.alarm.set(self.clock_ns, value, interval);
        self.set_proc(pid, p);
        before
    }

    /// `alarm` by process `pid`: the whole seconds that were left, with one
    /// more for a part
    pub fn alarm(&mut self, pid: u32, secs: u32) -> (r: u64)
        requires
            old(self).wf(),
            pid < old(self)@.procs.len(),
            old(self)@.clock_ns + secs * NS_PER_SEC < u64::MAX,
        ensures
            final(self).wf(),
            ({
                let p = old(self)@.procs[pid as int];
                let left = p.alarm.left(old(self)@.clock_ns);
                &&& r == left / NS_PER_SEC + (if determinism::micros(left) > 0 {
                    1int
                } else {
                    0
                })
                &&& final(self)@ == old(self)@.with_proc(
                    pid as int,
                    ProcRec {
                        alarm: if secs == 0 {
                            (Alarm { at: 0, interval: 0 })
                        } else {
                            (Alarm {
                                at: (old(self)@.clock_ns + secs * NS_PER_SEC) as u64,
                                interval: 0,
                            })
                        },
                        ..p
                    },
                )
            }),
    {
        let mut p: ProcRec = self.procs[pid as usize];
        assert(self@.procs[pid as int].wf());
        let before: u64 = p.alarm.alarm(self.clock_ns, secs);
        self.set_proc(pid, p);
        before
    }

    /// `getitimer` by process `pid`: what is left, and the interval
    pub fn timer(&self, pid: u32) -> (r: (u64, u64))
        requires
            pid < self@.procs.len(),
        ensures
            r == (
                self@.procs[pid as int].alarm.left(self@.clock_ns),
                self@.procs[pid as int].alarm.interval,
            ),
    {
        self.procs[pid as usize].alarm.get(self.clock_ns)
    }
}

pub(super) proof fn lemma_blocked_from(threads: Seq<ThreadRec>, pid: u32, i: int)
    requires
        0 <= i,
    ensures
        blocked_from(threads, pid, i) matches Some(k) ==> i <= k < threads.len() && threads[k].pid
            == pid && threads[k].state == T_BLOCKED,
    decreases threads.len() - i,
{
    if i < threads.len() {
        lemma_blocked_from(threads, pid, i + 1);
    }
}

proof fn lemma_blocked_some(threads: Seq<ThreadRec>, pid: u32, i: int, k: int)
    requires
        0 <= i <= k < threads.len(),
        threads[k].pid == pid,
        threads[k].state == T_BLOCKED,
    ensures
        blocked_from(threads, pid, i) is Some,
    decreases k - i,
{
    if i < k {
        lemma_blocked_some(threads, pid, i + 1, k);
    }
}

/// A timer that runs out is one signal: it waits for the process and is
/// counted, a blocked thread of the process can run, and the timer is off, or
/// set to its interval later.
pub proof fn a_timer_goes_off(s: StateView, pid: int)
    requires
        s.wf(),
        0 <= pid < s.procs.len(),
        s.procs[pid].alarm_due(s.clock_ns),
    ensures
        ({
            let after = s.rung(pid);
            let was = s.procs[pid].alarm;
            &&& after.pending_of(pid as u32)[SIGALRM as int]
            &&& after.sent_to(pid as u32, SIGALRM as int) == s.sent_to(
                pid as u32,
                SIGALRM as int,
            ).wrapping_add(1)
            &&& was.interval == 0 ==> after.procs[pid].alarm.at == 0
            &&& was.interval != 0 && was.at + was.interval <= u64::MAX
                ==> after.procs[pid].alarm.at == was.at + was.interval
            &&& blocked_from(s.threads, pid as u32, 0) matches Some(i) ==> 0 <= i < s.threads.len()
                && after.threads[i].pid == pid && after.threads[i].state == T_RUNNABLE
        }),
{
    lemma_blocked_from(s.threads, pid as u32, 0);
}

/// Nothing but signals, timers and who can run has changed.
pub open spec fn rings_only(before: StateView, after: StateView) -> bool {
    &&& after == (StateView {
        procs: after.procs,
        threads: after.threads,
        sig_pending: after.sig_pending,
        sig_counts: after.sig_counts,
        ..before
    })
    &&& after.procs.len() == before.procs.len()
    &&& after.threads.len() == before.threads.len()
    &&& forall|i: int|
        0 <= i < before.threads.len() ==> (#[trigger] after.threads[i]) == before.threads[i]
            || after.threads[i] == before.threads[i].awake()
    &&& forall|i: int|
        0 <= i < before.procs.len() ==> (#[trigger] after.procs[i]) == (ProcRec {
            alarm: after.procs[i].alarm,
            ..before.procs[i]
        })
}

pub(super) proof fn lemma_rung_from(s: StateView, pid: int, n: int)
    requires
        0 <= pid,
        n <= s.procs.len(),
    ensures
        rings_only(s, s.rung_from(pid, n)),
    decreases n - pid,
{
    if pid < n {
        if s.procs[pid].alarm_due(s.clock_ns) {
            let r = s.rung(pid);
            lemma_blocked_from(s.threads, pid as u32, 0);
            assert(rings_only(s, r));
            lemma_rung_from(r, pid + 1, n);
            let a = r.rung_from(pid + 1, n);
            assert forall|i: int| 0 <= i < s.threads.len() implies (#[trigger] a.threads[i])
                == s.threads[i] || a.threads[i] == s.threads[i].awake() by {
                assert(r.threads[i] == s.threads[i] || r.threads[i] == s.threads[i].awake());
            }
            assert forall|i: int| 0 <= i < s.procs.len() implies (#[trigger] a.procs[i]) == (
            ProcRec { alarm: a.procs[i].alarm, ..s.procs[i] }) by {
                assert(r.procs[i] == (ProcRec { alarm: r.procs[i].alarm, ..s.procs[i] }));
            }
        } else {
            lemma_rung_from(s, pid + 1, n);
        }
    }
}

/// Some thread can run.
pub open spec fn any_ready(threads: Seq<ThreadRec>) -> bool {
    exists|i: int| 0 <= i < threads.len() && (#[trigger] threads[i]).state == T_RUNNABLE
}

/// A timer ends the wait: when nothing can run and the next event is the timer
/// of a process with a blocked thread, that moment makes one ready.
pub proof fn a_timer_ends_the_wait(s: StateView, pid: int, n: int, at: int)
    requires
        0 <= at <= pid < n <= s.procs.len() <= MAX_PROCS,
        s.procs[pid].alarm_due(s.clock_ns),
        blocked_from(s.threads, pid as u32, 0) is Some,
    ensures
        any_ready(s.rung_from(at, n).threads),
    decreases n - at,
{
    if at < pid && !s.procs[at].alarm_due(s.clock_ns) {
        a_timer_ends_the_wait(s, pid, n, at + 1);
    } else {
        lemma_blocked_from(s.threads, at as u32, 0);
        let r = s.rung(at);
        lemma_rung_from(r, at + 1, n);
        match blocked_from(s.threads, at as u32, 0) {
            Some(i) => {
                let after = s.rung_from(at, n);
                assert(r.threads[i].state == T_RUNNABLE);
                assert(after.threads[i] == r.threads[i] || after.threads[i]
                    == r.threads[i].awake());
                assert(after == r.rung_from(at + 1, n));
                assert(after.threads[i].state == T_RUNNABLE);
            },
            None => {
                lemma_blocked_from(s.threads, pid as u32, 0);
                let k = blocked_from(s.threads, pid as u32, 0).unwrap();
                let after = s.rung_from(at, n);
                assert(after == r.rung_from(at + 1, n));
                if r.threads[k].state == T_BLOCKED {
                    lemma_blocked_some(r.threads, pid as u32, 0, k);
                    a_timer_ends_the_wait(r, pid, n, at + 1);
                } else {
                    assert(r.threads[k].state == T_RUNNABLE);
                    assert(after.threads[k] == r.threads[k] || after.threads[k]
                        == r.threads[k].awake());
                    assert(after.threads[k].state == T_RUNNABLE);
                }
            },
        }
    }
}

} // verus!
