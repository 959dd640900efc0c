//! The clock, and who holds the baton next.

use vstd::prelude::*;
use super::alarms;
use super::faults;
use super::{
    Handoff, ProcRec, State, StateView, ThreadRec, MAX_PENDING_KILLS, PER_READ_NS, P_EXITED,
    SITE_PROCESS_DIED, T_BLOCKED, T_EXITED, T_RUNNABLE, T_RUNNING,
};
use crate::hash;
use crate::hash::fnv;
use crate::netstate::traffic;
use crate::rng;

verus! {

/// How many of the first `n` threads can run
pub open spec fn ready(threads: Seq<ThreadRec>, n: int) -> int
    decreases n,
{
    if n <= 0 {
        0
    } else {
        ready(threads, n - 1) + (if threads[n - 1].state == T_RUNNABLE {
            1int
        } else {
            0
        })
    }
}

/// From number `i` on, the thread that can run and has `k` such before it
pub open spec fn nth_ready(threads: Seq<ThreadRec>, k: int, i: int) -> int
    decreases threads.len() - i,
{
    if i < 0 || i >= threads.len() {
        -1
    } else if threads[i].state != T_RUNNABLE {
        nth_ready(threads, k, i + 1)
    } else if k <= 0 {
        i
    } else {
        nth_ready(threads, k - 1, i + 1)
    }
}

/// The earliest deadline of the first `n` threads
pub open spec fn next_deadline(threads: Seq<ThreadRec>, n: int) -> Option<u64>
    decreases n,
{
    if n <= 0 {
        None
    } else {
        let t = threads[n - 1];
        let before = next_deadline(threads, n - 1);
        if t.state == T_BLOCKED && t.deadline != 0 {
            sooner(before, Some(t.deadline))
        } else {
            before
        }
    }
}

/// The earlier of two times, as far as there are any
pub open spec fn sooner(a: Option<u64>, b: Option<u64>) -> Option<u64> {
    match (a, b) {
        (Some(x), Some(y)) => if y < x {
            Some(y)
        } else {
            Some(x)
        },
        (Some(x), None) => Some(x),
        (None, _) => b,
    }
}

pub(super) fn earlier(a: Option<u64>, b: Option<u64>) -> (r: Option<u64>)
    ensures
        r == sooner(a, b),
{
    match a {
        Some(x) => match b {
            Some(y) => if y < x {
                Some(y)
            } else {
                Some(x)
            },
            None => Some(x),
        },
        None => b,
    }
}

impl StateView {
    /// The next quantum, and the state after it was drawn
    pub open spec fn quantum_issued(self) -> (StateView, i64) {
        let q = rng::scaled(
            rng::output(self.rng),
            (self.quantum_hi - self.quantum_lo + 1) as u64,
        ) + self.quantum_lo;
        (
            StateView {
                rng: rng::advanced(self.rng),
                issued: self.issued.wrapping_add(q as u64),
                pending_quantum: q as i64,
                ..self
            },
            q as i64,
        )
    }

    /// What the time brings has come: streams start over, and network traffic
    /// arrives.
    pub open spec fn clock_moved(self) -> StateView {
        let due = self.started_over();
        let (net, arrived) = due.net.advanced(due.clock_ns);
        let s = StateView { net, ..due };
        if arrived {
            s.io_woken()
        } else {
            s
        }
    }

    /// What is due at this time has happened: traffic, crashes, deadlines,
    /// timers.
    pub open spec fn caught_up(self) -> StateView {
        self.clock_moved().due_crashes_injected().expired().alarms_rung()
    }

    /// How many threads can run
    pub open spec fn ready(self) -> int {
        ready(self.threads, self.threads.len() as int)
    }

    /// When something happens next: a timed waiter's deadline, a payload in
    /// flight, a crash or a timer, whichever comes first
    pub open spec fn next_event(self) -> Option<u64> {
        sooner(
            sooner(
                sooner(
                    next_deadline(self.threads, self.threads.len() as int),
                    self.net.next_due(),
                ),
                faults::next_crash_of(self.procs, self.procs.len() as int),
            ),
            alarms::next_alarm_of(self.procs, self.threads, self.procs.len() as int),
        )
    }

    /// The clock has jumped to a time, if that is to come.
    pub open spec fn jumped(self, to: u64) -> StateView {
        (StateView {
            clock_ns: if self.clock_ns < to {
                to
            } else {
                self.clock_ns
            },
            ..self
        }).caught_up()
    }

    /// Something has happened since: a process was condemned, or a payload
    /// arrived, or the next one is due at another time.
    pub open spec fn has_moved_on_from(self, before: StateView) -> bool {
        self.kills.len() > before.kills.len() || self.net.in_flight < before.net.in_flight
            || self.net.next_due() != before.net.next_due()
    }

    /// Fewer things are to come than before: there is room for only so many
    /// pids to signal, and every payload in flight arrives once.
    pub open spec fn has_less_to_come_than(self, before: StateView) -> bool {
        &&& self.kills.len() <= MAX_PENDING_KILLS
        &&& {
            ||| self.kills.len() > before.kills.len()
            ||| self.kills.len() == before.kills.len() && self.net.in_flight
                < before.net.in_flight
            ||| self.kills.len() == before.kills.len() && self.net.in_flight
                == before.net.in_flight && self.due_is_exact() && !before.due_is_exact()
        }
    }

    /// The time that the network goes by is that of its first flight.
    pub open spec fn due_is_exact(self) -> bool {
        self.net.due == traffic::earliest(self.net.socks, 256)
    }

    /// Nothing could run, so the clock has jumped from event to event until
    /// something can, or nothing is to come.
    pub open spec fn waited(self) -> StateView
        decreases
            MAX_PENDING_KILLS - self.kills.len(),
            self.net.in_flight,
            (if self.due_is_exact() {
                0int
            } else {
                1int
            }),
    {
        match self.next_event() {
            None => self,
            Some(at) => {
                let next = self.jumped(at);
                if next.ready() > 0 || !next.has_moved_on_from(self)
                    || !next.has_less_to_come_than(self) {
                    next
                } else {
                    next.waited()
                }
            },
        }
    }

    /// The next baton holder has been picked among those that can run.
    pub open spec fn picked(self) -> (StateView, Option<int>) {
        let s = self.caught_up();
        let s = if s.ready() > 0 {
            s
        } else {
            s.waited()
        };
        if s.ready() > 0 {
            (
                StateView { rng: rng::advanced(s.rng), ..s },
                Some(
                    nth_ready(s.threads, rng::scaled(rng::output(s.rng), s.ready() as u64), 0),
                ),
            )
        } else {
            (s, None)
        }
    }

    /// The schedule's trace with one more switch
    pub open spec fn traced(self, me: int, next: int, site: u64) -> u64 {
        let h = hash::folded_number(hash::folded_number(self.trace_hash, me as u64), next as u64);
        hash::folded_number(hash::folded_number(h, self.issued), site)
    }

    /// The baton has gone to whoever was picked.
    pub open spec fn chosen(self, me: Option<int>, site: u64) -> (StateView, Handoff) {
        match self.picked() {
            (s, None) => (s, Handoff::Idle),
            (s, Some(next)) => {
                let s = s.quantum_issued().0;
                let s = s.with_thread(next, ThreadRec { state: T_RUNNING, ..s.threads[next] });
                match me {
                    Some(me) => if me == next {
                        (s, Handoff::Stay)
                    } else {
                        (
                            (StateView {
                                switches: s.switches.wrapping_add(1),
                                trace_hash: s.traced(me, next, site),
                                ..s
                            }).given(next),
                            Handoff::Switch { to: next as usize, seen: s.threads[me].park },
                        )
                    },
                    None => (s.given(next), Handoff::Switch { to: next as usize, seen: 0 }),
                }
            },
        }
    }

    /// A thread has the baton.
    pub open spec fn given(self, next: int) -> StateView {
        let t = self.threads[next];
        StateView {
            current: next as u32,
            ..self.with_thread(next, ThreadRec { park: t.park.wrapping_add(1), ..t })
        }
    }

    /// A thread's new state has been recorded, and the baton passed.
    pub open spec fn handed_off(self, from: Option<(usize, u32, u64)>, site: u64) -> (
        StateView,
        Handoff,
    ) {
        match from {
            Some((id, state, key)) => (StateView {
                clock_ns: self.clock_ns.wrapping_add(self.switch_ns),
                ..self.with_thread(
                    id as int,
                    ThreadRec { state, key, ..self.threads[id as int] },
                )
            }).chosen(Some(id as int), site),
            None => self.chosen(None, site),
        }
    }

    /// A process has died, as far as that does not concern the baton.
    pub open spec fn bereft(self, pid: int, status: i32) -> StateView {
        let s = if self.procs[pid].comes_back(status) {
            self.restart_registered(pid)
        } else {
            self
        };
        let s = s.with_proc(
            pid,
            ProcRec { state: P_EXITED, exit_status: status, crash_at: 0, ..s.procs[pid] },
        ).hung_up(pid as u32).parent_woken(pid);
        // Of one that was killed the parent is told already
        let s = if s.procs[pid].killed {
            s
        } else {
            s.loss_noted(pid)
        };
        s.newly_retired(pid as u32)
    }

    /// A thread of the process was last given the baton.
    pub open spec fn holds_baton(self, pid: u32) -> bool {
        self.current < self.threads.len() && self.threads[self.current as int].pid == pid
    }

    /// A process has died; where it held the baton, that is passed on.
    #[verifier::opaque]
    pub open spec fn died(self, pid: int, status: i32) -> (StateView, Option<Handoff>) {
        let s = self.bereft(pid, status);
        if s.holds_baton(pid as u32) {
            let (s, h) = s.handed_off(
                Some((s.current as usize, T_EXITED, 0)),
                SITE_PROCESS_DIED,
            );
            (s, Some(h))
        } else {
            (s, None)
        }
    }
}

/// Crashes add to those to be signaled; without one nothing changes.
proof fn lemma_injected(s: StateView, pid: int, n: int)
    requires
        0 <= pid,
        s.kills.len() <= MAX_PENDING_KILLS,
    ensures
        ({
            let r = s.crashes_injected_from(pid, n);
            &&& s.kills.len() <= r.kills.len() <= MAX_PENDING_KILLS
            &&& r.kills.len() == s.kills.len() ==> r == s
        }),
    decreases n - pid,
{
    if pid < n {
        if !s.procs[pid].crash_due(s.clock_ns) {
            lemma_injected(s, pid + 1, n);
        } else if s.kills.len() < MAX_PENDING_KILLS {
            assert(s.condemned(pid).kills.len() == s.kills.len() + 1);
            lemma_injected(s.condemned(pid), pid + 1, n);
        }
    }
}

/// Whenever something has happened, less is to come.
proof fn lemma_moving_on(s: StateView, at: u64)
    requires
        s.wf(),
        s.net.wf(),
        s.jumped(at).has_moved_on_from(s),
    ensures
        s.jumped(at).has_less_to_come_than(s),
{
    let c = StateView {
        clock_ns: if s.clock_ns < at {
            at
        } else {
            s.clock_ns
        },
        ..s
    };
    let m = c.clock_moved();
    lemma_injected(m, 0, m.procs.len() as int);
    let e = m.due_crashes_injected().expired();
    alarms::lemma_rung_from(e, 0, e.procs.len() as int);
    if s.jumped(at).kills.len() == s.kills.len() {
        let net = s.net;
        let started = crate::netstate::NetView { now: c.clock_ns, ..net };
        traffic::lemma_settled_count(started, c.clock_ns, 0);
    }
}

/// Threads are never taken away.
proof fn lemma_threads_stay_injected(s: StateView, pid: int, n: int)
    ensures
        s.crashes_injected_from(pid, n).threads.len() >= s.threads.len(),
    decreases n - pid,
{
    if pid < n {
        if !s.procs[pid].crash_due(s.clock_ns) {
            lemma_threads_stay_injected(s, pid + 1, n);
        } else if s.kills.len() < MAX_PENDING_KILLS {
            lemma_threads_stay_injected(s.condemned(pid), pid + 1, n);
        }
    }
}

proof fn lemma_threads_stay_caught_up(s: StateView)
    ensures
        s.caught_up().threads.len() >= s.threads.len(),
{
    let m = s.clock_moved();
    lemma_threads_stay_injected(m, 0, m.procs.len() as int);
    let e = m.due_crashes_injected().expired();
    alarms::lemma_rung_from(e, 0, e.procs.len() as int);
}

pub proof fn lemma_nth_ready(threads: Seq<ThreadRec>, k: int, i: int, n: int)
    requires
        0 <= i <= n,
        n == threads.len(),
        0 <= k < ready(threads, n) - ready(threads, i),
    ensures
        ({
            let r = nth_ready(threads, k, i);
            i <= r < n && threads[r].state == T_RUNNABLE
        }),
    decreases n - i,
{
    lemma_ready_grows(threads, i, n);
    if i < n {
        if threads[i].state != T_RUNNABLE {
            lemma_nth_ready(threads, k, i + 1, n);
        } else if k > 0 {
            lemma_nth_ready(threads, k - 1, i + 1, n);
        }
    }
}

pub proof fn lemma_ready_bound(threads: Seq<ThreadRec>, n: int)
    requires
        0 <= n <= threads.len(),
    ensures
        0 <= ready(threads, n) <= n,
    decreases n,
{
    if n > 0 {
        lemma_ready_bound(threads, n - 1);
    }
}

proof fn lemma_ready_grows(threads: Seq<ThreadRec>, i: int, n: int)
    requires
        0 <= i <= n,
    ensures
        0 <= ready(threads, i) <= ready(threads, n) <= ready(threads, i) + (n - i),
    decreases n,
{
    if n > i {
        lemma_ready_grows(threads, i, n - 1);
    } else if i > 0 {
        lemma_ready_grows(threads, i - 1, n - 1);
    }
}

impl State {
    fn next_quantum(&mut self) -> (r: i64)
        requires
            old(self).wf(),
        ensures
            final(self).wf(),
            (final(self)@, r) == old(self)@.quantum_issued(),
            old(self)@.quantum_lo <= r <= old(self)@.quantum_hi,
    {
        let q: u32 = self.rng.range_inclusive(self.quantum_lo, self.quantum_hi);
        self.issued = self.issued.wrapping_add(q as u64);
        self.pending_quantum = q as i64;
        q as i64
    }

    /// Draw a fresh quantum for a thread that keeps running.
    pub fn renew_quantum(&mut self) -> (r: i64)
        requires
            old(self).wf(),
        ensures
            final(self).wf(),
            (final(self)@, r) == old(self)@.quantum_issued(),
            old(self)@.quantum_lo <= r <= old(self)@.quantum_hi,
    {
        self.next_quantum()
    }

    /// A read of the clock: every read moves it a little, so busy-waits on
    /// the clock make progress.
    pub fn clock_read(&mut self) -> (r: u64)
        requires
            old(self).wf(),
        ensures
            final(self).wf(),
            r == old(self)@.clock_ns.wrapping_add(PER_READ_NS),
            final(self)@ == (StateView { clock_ns: r, ..old(self)@ }).clock_moved(),
    {
        self.clock_ns = self.clock_ns.wrapping_add(PER_READ_NS);
        self.clock_moved();
        self.clock_ns
    }

    /// Streams start over and network traffic arrives where it is time.
    fn clock_moved(&mut self)
        requires
            old(self).wf(),
        ensures
            final(self).wf(),
            final(self)@ == old(self)@.clock_moved(),
            final(self)@.clock_ns == old(self)@.clock_ns,
    {
        self.start_over();
        if self.net.advance(self.clock_ns) {
            self.wake_io();
        }
    }

    fn catch_up(&mut self)
        requires
            old(self).wf(),
        ensures
            final(self).wf(),
            final(self)@ == old(self)@.caught_up(),
            final(self)@.threads.len() >= old(self)@.threads.len(),
    {
        proof {
            lemma_threads_stay_caught_up(self@);
        }
        self.clock_moved();
        self.inject_due_crashes();
        self.expire_deadlines();
        self.ring_alarms();
    }

    fn earliest_deadline(&self) -> (r: Option<u64>)
        ensures
            r == next_deadline(self@.threads, self@.threads.len() as int),
    {
        let mut first: Option<u64> = None;
        let mut i: usize = 0;
        while i < self.threads.len()
            invariant
                i <= self.threads@.len(),
                first == next_deadline(self.threads@, i as int),
            decreases self.threads@.len() - i,
        {
            let t: ThreadRec = self.threads[i];
            if t.state == T_BLOCKED && t.deadline != 0 {
                first = earlier(first, Some(t.deadline));
            }
            i += 1;
        }
        first
    }

    fn count_ready(&self) -> (r: u64)
        requires
            self.wf(),
        ensures
            r == self@.ready(),
    {
        let mut count: u64 = 0;
        let mut i: usize = 0;
        while i < self.threads.len()
            invariant
                i <= self.threads@.len() <= 16384,
                count == ready(self.threads@, i as int),
                count <= i,
            decreases self.threads@.len() - i,
        {
            if self.threads[i].state == T_RUNNABLE {
                count += 1;
            }
            i += 1;
        }
        count
    }

    fn find_ready(&self, k: u64) -> (r: usize)
        requires
            self.wf(),
            k < self@.ready(),
        ensures
            r == nth_ready(self@.threads, k as int, 0),
            r < self@.threads.len(),
    {
        proof {
            lemma_nth_ready(self.threads@, k as int, 0, self.threads@.len() as int);
        }
        let mut left: u64 = k;
        let mut i: usize = 0;
        while i < self.threads.len()
            invariant
                i <= self.threads@.len(),
                nth_ready(self.threads@, k as int, 0) == nth_ready(
                    self.threads@,
                    left as int,
                    i as int,
                ),
                0 <= nth_ready(self.threads@, k as int, 0),
                self@.threads == self.threads@,
                nth_ready(self.threads@, k as int, 0) < self.threads@.len(),
            decreases self.threads@.len() - i,
        {
            if self.threads[i].state == T_RUNNABLE {
                if left == 0 {
                    return i;
                }
                left -= 1;
            }
            i += 1;
        }
        0
    }

    /// Let the clock jump from event to event until a thread can run.
    fn wait(&mut self)
        requires
            old(self).wf(),
        ensures
            final(self).wf(),
            final(self)@ == old(self)@.waited(),
            final(self)@.threads.len() >= old(self)@.threads.len(),
    {
        proof {
            self.lemma_wf();
        }
        loop
            invariant
                self.wf(),
                self@.wf(),
                self@.net.wf(),
                self@.threads.len() >= old(self)@.threads.len(),
                self@.waited() == old(self)@.waited(),
            decreases
                MAX_PENDING_KILLS - self@.kills.len(),
                self@.net.in_flight,
                (if self@.due_is_exact() {
                    0int
                } else {
                    1int
                }),
        {
            let ghost was = self@;
            let at: u64 = match earlier(
                earlier(
                    earlier(self.earliest_deadline(), self.net.next_due()),
                    self.next_crash(),
                ),
                self.next_alarm(),
            ) {
                Some(at) => at,
                None => {
                    return;
                },
            };
            let kills: usize = self.pending_kills.len();
            let in_flight: u64 = self.net.in_flight();
            let due: Option<u64> = self.net.next_due();
            if self.clock_ns < at {
                self.clock_ns = at;
            }
            self.catch_up();
            proof {
                self.lemma_wf();
            }
            if self.count_ready() > 0 {
                return;
            }
            let moved: bool = self.pending_kills.len() > kills || self.net.in_flight() < in_flight
                || !same_time(self.net.next_due(), due);
            if !moved {
                return;
            }
            proof {
                lemma_moving_on(was, at);
            }
        }
    }

    /// Choose the next baton holder. Returns None when nothing can run.
    /// Deadlines that have passed are handled before the choice; when
    /// nothing is runnable the clock jumps to the earliest deadline.
    fn pick(&mut self) -> (r: Option<usize>)
        requires
            old(self).wf(),
        ensures
            final(self).wf(),
            match old(self)@.picked() {
                (s, Some(next)) => final(self)@ == s && r == Some(next as usize) && 0 <= next
                    < s.threads.len() && s.threads[next].state == T_RUNNABLE,
                (s, None) => final(self)@ == s && r is None,
            },
            final(self)@.threads.len() >= old(self)@.threads.len(),
    {
        self.catch_up();
        if self.count_ready() == 0 {
            self.wait();
        }
        let n: u64 = self.count_ready();
        if n == 0 {
            return None;
        }
        let ghost s = self@;
        let k: u64 = self.rng.below(n);
        assert(self@.threads == s.threads);
        proof {
            lemma_nth_ready(s.threads, k as int, 0, s.threads.len() as int);
        }
        Some(self.find_ready(k))
    }

    /// Record the caller's new state and pass the baton. `from` is None
    /// for the first handoff of a run. `site` names the switch point for
    /// the schedule trace. On `Switch`, the caller must unpark `to` after
    /// dropping the lock.
    pub fn hand_off(&mut self, from: Option<(usize, u32, u64)>, site: u64) -> (r: Handoff)
        requires
            old(self).wf(),
            from matches Some(f) ==> f.0 < old(self)@.threads.len(),
        ensures
            final(self).wf(),
            (final(self)@, r) == old(self)@.handed_off(from, site),
    {
        match from {
            Some((id, state, key)) => {
                let mut t: ThreadRec = self.threads[id];
                t.state = state;
                t.key = key;
                self.threads.set(id, t);
                // Every yield, not only a switch: a lone compute thread must
                // still let a sleeper's deadline pass.
                self.clock_ns = self.clock_ns.wrapping_add(self.switch_ns);
                self.choose_next(Some(id), site)
            },
            None => self.choose_next(None, site),
        }
    }

    /// The choosing half of `hand_off`, for a caller whose state is already
    /// recorded: an idle scheduler looks again after threads it does not
    /// schedule (GCD workers) have had time to wake someone.
    pub fn choose_next(&mut self, me: Option<usize>, site: u64) -> (r: Handoff)
        requires
            old(self).wf(),
            me matches Some(id) ==> id < old(self)@.threads.len(),
        ensures
            final(self).wf(),
            (final(self)@, r) == old(self)@.chosen(
                match me {
                    Some(id) => Some(id as int),
                    None => None,
                },
                site,
            ),
    {
        let next: usize = match self.pick() {
            Some(next) => next,
            None => {
                return Handoff::Idle;
            },
        };
        self.next_quantum();
        let mut t: ThreadRec = self.threads[next];
        t.state = T_RUNNING;
        self.threads.set(next, t);
        let seen: u32 = match me {
            Some(id) => {
                if id == next {
                    return Handoff::Stay;
                }
                self.switches = self.switches.wrapping_add(1);
                let h: u64 = fnv(fnv(self.trace_hash, id as u64), next as u64);
                self.trace_hash = fnv(fnv(h, self.issued), site);
                self.threads[id].park
            },
            None => 0,
        };
        self.current = next as u32;
        t.park = t.park.wrapping_add(1);
        self.threads.set(next, t);
        Handoff::Switch { to: next, seen }
    }

    /// A process is gone (exit, `_exit`, crash): retire its threads, and if
    /// one of them held the baton pass it on. Only the launcher calls this,
    /// after reaping, so nothing of the process can still be running.
    /// None when the process did not hold the baton.
    pub fn process_died(&mut self, pid: u32, status: i32) -> (r: Option<Handoff>)
        requires
            old(self).wf(),
            pid < old(self)@.procs.len(),
        ensures
            final(self).wf(),
            (final(self)@, r) == old(self)@.died(pid as int, status),
    {
        reveal(StateView::died);
        // A death the process caused itself (exit, abort): it held the
        // baton, so this moment is a point of the schedule too.
        if self.will_restart(pid, status) {
            self.register_restart(pid);
        }
        let mut p: ProcRec = self.procs[pid as usize];
        p.state = P_EXITED;
        p.exit_status = status;
        p.crash_at = 0;
        self.set_proc(pid, p);
        self.hang_up(pid);
        self.wake_parent(pid);
        if !p.killed {
            self.note_loss(pid);
        }
        // Whoever was last given the baton has it, whatever its state says:
        // a thread that found the run idle (and aborted over it, or was
        // polling) is already recorded as blocked.
        self.retire(pid, true);
        let n: u32 = self.threads.len() as u32;
        if self.current < n && self.threads[self.current as usize].pid == pid {
            let id: usize = self.current as usize;
            return Some(self.hand_off(Some((id, T_EXITED, 0)), SITE_PROCESS_DIED));
        }
        None
    }
}

fn same_time(a: Option<u64>, b: Option<u64>) -> (r: bool)
    ensures
        r == (a == b),
{
    match (a, b) {
        (Some(x), Some(y)) => x == y,
        (None, None) => true,
        _ => false,
    }
}

} // verus!
