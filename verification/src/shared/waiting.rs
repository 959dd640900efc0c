//! Threads that wait: keys, condition variables, deadlines, children.

use vstd::prelude::*;
use super::{
    ProcRec, State, StateView, ThreadRec, IO_KEY, P_EXITED, P_LIVE, T_BLOCKED, T_EXITED, T_RUNNABLE,
};

verus! {

impl ThreadRec {
    /// Runnable, if it was blocked
    pub open spec fn awake(self) -> ThreadRec {
        if self.state == T_BLOCKED {
            ThreadRec { state: T_RUNNABLE, ..self }
        } else {
            self
        }
    }

    /// It is blocked on `key`, in process `pid`.
    pub open spec fn waits_for(self, pid: u32, key: u64) -> bool {
        self.state == T_BLOCKED && self.pid == pid && self.key == key
    }

    pub open spec fn woken(self, pid: u32, key: u64) -> ThreadRec {
        if self.waits_for(pid, key) {
            self.awake()
        } else {
            self
        }
    }

    pub open spec fn io_woken(self) -> ThreadRec {
        if self.state == T_BLOCKED && self.key == IO_KEY {
            self.awake()
        } else {
            self
        }
    }

    /// It is queued on the condition variable.
    pub open spec fn queued(self, pid: u32, cond: u64) -> bool {
        self.pid == pid && self.cond_key == cond && self.state != T_EXITED
    }

    /// It was taken off its condition variable.
    pub open spec fn signal(self) -> ThreadRec {
        (ThreadRec { cond_key: 0, signaled: true, ..self }).awake()
    }

    pub open spec fn if_signaled(self, pid: u32, cond: u64) -> ThreadRec {
        if self.queued(pid, cond) {
            self.signal()
        } else {
            self
        }
    }

    /// Its deadline has passed.
    pub open spec fn overdue(self, now: u64) -> bool {
        self.state == T_BLOCKED && self.deadline != 0 && self.deadline <= now
    }

    pub open spec fn expired(self, now: u64) -> ThreadRec {
        if self.overdue(now) {
            ThreadRec { deadline: 0, timed_out: true, state: T_RUNNABLE, ..self }
        } else {
            self
        }
    }

    /// It leaves the schedule, if it is of process `pid`.
    pub open spec fn retired(self, pid: u32) -> ThreadRec {
        if self.pid == pid {
            ThreadRec { state: T_EXITED, cond_key: 0, deadline: 0, ..self }
        } else {
            self
        }
    }

    /// The same, if it had not left before
    pub open spec fn newly_retired(self, pid: u32) -> ThreadRec {
        if self.state != T_EXITED {
            self.retired(pid)
        } else {
            self
        }
    }
}

impl StateView {
    pub open spec fn key_woken(self, pid: u32, key: u64) -> StateView {
        StateView { threads: self.threads.map_values(|t: ThreadRec| t.woken(pid, key)), ..self }
    }

    pub open spec fn io_woken(self) -> StateView {
        StateView { threads: self.threads.map_values(|t: ThreadRec| t.io_woken()), ..self }
    }

    pub open spec fn expired(self) -> StateView {
        StateView {
            threads: self.threads.map_values(|t: ThreadRec| t.expired(self.clock_ns)),
            ..self
        }
    }

    pub open spec fn retired(self, pid: u32) -> StateView {
        StateView { threads: self.threads.map_values(|t: ThreadRec| t.retired(pid)), ..self }
    }

    pub open spec fn newly_retired(self, pid: u32) -> StateView {
        StateView { threads: self.threads.map_values(|t: ThreadRec| t.newly_retired(pid)), ..self }
    }

    /// Everybody queued on the condition variable was signaled.
    pub open spec fn all_signaled(self, pid: u32, cond: u64) -> StateView {
        StateView {
            threads: self.threads.map_values(|t: ThreadRec| t.if_signaled(pid, cond)),
            ..self
        }
    }

    /// The one waiting longest was.
    pub open spec fn one_signaled(self, pid: u32, cond: u64) -> StateView {
        match longest(self.threads, pid, cond, self.threads.len() as int) {
            Some(i) => self.with_thread(i, self.threads[i].signal()),
            None => self,
        }
    }
}

/// How many of the first `n` threads are of `pid`
pub open spec fn count_of(threads: Seq<ThreadRec>, pid: u32, n: int) -> int
    decreases n,
{
    if n <= 0 {
        0
    } else {
        count_of(threads, pid, n - 1) + (if threads[n - 1].pid == pid {
            1int
        } else {
            0
        })
    }
}

/// How many of the first `n` threads are blocked on a key
pub open spec fn count_waiting(threads: Seq<ThreadRec>, pid: u32, key: u64, n: int) -> int
    decreases n,
{
    if n <= 0 {
        0
    } else {
        count_waiting(threads, pid, key, n - 1) + (if threads[n - 1].waits_for(pid, key) {
            1int
        } else {
            0
        })
    }
}

/// The last of the first `n` threads that has the handle
pub open spec fn last_with(threads: Seq<ThreadRec>, pid: u32, pthread: u64, n: int) -> Option<
    usize,
>
    decreases n,
{
    if n <= 0 {
        None
    } else if threads[n - 1].pid == pid && threads[n - 1].pthread == pthread {
        Some((n - 1) as usize)
    } else {
        last_with(threads, pid, pthread, n - 1)
    }
}

/// Of the first `n` threads, the one queued longest on the condition
/// variable
pub open spec fn longest(threads: Seq<ThreadRec>, pid: u32, cond: u64, n: int) -> Option<int>
    decreases n,
{
    if n <= 0 {
        None
    } else {
        let before = longest(threads, pid, cond, n - 1);
        if !threads[n - 1].queued(pid, cond) {
            before
        } else {
            match before {
                Some(i) => if threads[n - 1].cond_seq < threads[i].cond_seq {
                    Some(n - 1)
                } else {
                    before
                },
                None => Some(n - 1),
            }
        }
    }
}

/// How many of the first `n` threads are queued on the condition variable
spec fn count_queued(threads: Seq<ThreadRec>, pid: u32, cond: u64, n: int) -> nat
    decreases n,
{
    if n <= 0 {
        0
    } else {
        count_queued(threads, pid, cond, n - 1) + (if threads[n - 1].queued(pid, cond) {
            1nat
        } else {
            0
        })
    }
}

pub proof fn lemma_longest(threads: Seq<ThreadRec>, pid: u32, cond: u64, n: int)
    requires
        0 <= n <= threads.len(),
    ensures
        match longest(threads, pid, cond, n) {
            Some(i) => 0 <= i < n && threads[i].queued(pid, cond),
            None => forall|i: int| 0 <= i < n ==> !(#[trigger] threads[i]).queued(pid, cond),
        },
    decreases n,
{
    if n > 0 {
        lemma_longest(threads, pid, cond, n - 1);
    }
}

proof fn lemma_count_queued(threads: Seq<ThreadRec>, pid: u32, cond: u64, i: int, n: int)
    requires
        0 <= i < threads.len(),
        0 <= n <= threads.len(),
        cond != 0,
        threads[i].queued(pid, cond),
    ensures
        count_queued(threads.update(i, threads[i].signal()), pid, cond, n) == count_queued(
            threads,
            pid,
            cond,
            n,
        ) - (if i < n {
            1int
        } else {
            0
        }),
    decreases n,
{
    if n > 0 {
        lemma_count_queued(threads, pid, cond, i, n - 1);
    }
}

/// The first child of `parent` from number `i` on that is gone and was not
/// waited for
pub open spec fn exited_from(procs: Seq<ProcRec>, parent: u32, which: Option<u32>, i: int) -> Option<
    u32,
>
    decreases procs.len() - i,
{
    if i < 0 || i >= procs.len() {
        None
    } else if child_left(procs[i], parent, which, i) && (procs[i].state == P_EXITED
        || procs[i].killed) {
        Some(i as u32)
    } else {
        exited_from(procs, parent, which, i + 1)
    }
}

/// Process `i` is a child of `parent` it could still wait for: the one
/// named, where one is.
pub open spec fn child_left(p: ProcRec, parent: u32, which: Option<u32>, i: int) -> bool {
    p.parent == parent && !p.reaped && (which matches Some(w) ==> w == i)
}

impl State {
    pub fn threads_of(&self, pid: u32) -> (r: usize)
        requires
            self.wf(),
        ensures
            r == count_of(self@.threads, pid, self@.threads.len() as int),
    {
        let mut count: usize = 0;
        let mut i: usize = 0;
        while i < self.threads.len()
            invariant
                i <= self.threads@.len(),
                count == count_of(self.threads@, pid, i as int),
                count <= i,
            decreases self.threads@.len() - i,
        {
            if self.threads[i].pid == pid {
                count += 1;
            }
            i += 1;
        }
        count
    }

    /// Latest thread of `pid` with this `pthread_t` (handles can be reused
    /// after a join).
    pub fn find_pthread(&self, pid: u32, pthread: u64) -> (r: Option<usize>)
        ensures
            r == last_with(self@.threads, pid, pthread, self@.threads.len() as int),
    {
        let mut i: usize = self.threads.len();
        while i > 0
            invariant
                i <= self.threads@.len(),
                last_with(self.threads@, pid, pthread, self.threads@.len() as int) == last_with(
                    self.threads@,
                    pid,
                    pthread,
                    i as int,
                ),
            decreases i,
        {
            let t = self.threads[i - 1];
            if t.pid == pid && t.pthread == pthread {
                return Some(i - 1);
            }
            i -= 1;
        }
        None
    }

    /// Make every thread of `pid` blocked on `key` runnable; returns how
    /// many there were.
    pub fn wake_all(&mut self, pid: u32, key: u64) -> (r: usize)
        requires
            old(self).wf(),
        ensures
            final(self).wf(),
            final(self)@ == old(self)@.key_woken(pid, key),
            r == count_waiting(old(self)@.threads, pid, key, old(self)@.threads.len() as int),
    {
        let n: usize = self.threads.len();
        let ghost was = self.threads@;
        let mut woken: usize = 0;
        let mut i: usize = 0;
        while i < n
            invariant
                i <= n == self.threads@.len() == was.len(),
                *self == (State { threads: self.threads, ..*old(self) }),
                woken == count_waiting(was, pid, key, i as int),
                woken <= i,
                forall|k: int| 0 <= k < i ==> self.threads@[k] == (#[trigger] was[k]).woken(pid, key),
                forall|k: int| i <= k < n ==> self.threads@[k] == #[trigger] was[k],
            decreases n - i,
        {
            let mut t: ThreadRec = self.threads[i];
            if t.state == T_BLOCKED && t.pid == pid && t.key == key {
                t.state = T_RUNNABLE;
                self.threads.set(i, t);
                woken += 1;
            }
            i += 1;
        }
        assert(self@.threads =~= old(self)@.key_woken(pid, key).threads);
        woken
    }

    /// Let every thread parked for I/O readiness re-check. Kernel object
    /// state only changes when a guest acts, so doing this after each such
    /// act is exact.
    pub fn wake_io(&mut self)
        requires
            old(self).wf(),
        ensures
            final(self).wf(),
            final(self)@ == old(self)@.io_woken(),
    {
        let n: usize = self.threads.len();
        let ghost was = self.threads@;
        let mut i: usize = 0;
        while i < n
            invariant
                i <= n == self.threads@.len() == was.len(),
                *self == (State { threads: self.threads, ..*old(self) }),
                forall|k: int| 0 <= k < i ==> self.threads@[k] == (#[trigger] was[k]).io_woken(),
                forall|k: int| i <= k < n ==> self.threads@[k] == #[trigger] was[k],
            decreases n - i,
        {
            let mut t: ThreadRec = self.threads[i];
            if t.state == T_BLOCKED && t.key == IO_KEY {
                t.state = T_RUNNABLE;
                self.threads.set(i, t);
            }
            i += 1;
        }
        assert(self@.threads =~= old(self)@.io_woken().threads);
    }

    pub fn wake_thread(&mut self, id: usize)
        requires
            old(self).wf(),
            id < old(self)@.threads.len(),
        ensures
            final(self).wf(),
            final(self)@ == old(self)@.with_thread(id as int, old(self)@.threads[id as int].awake()),
    {
        let mut t: ThreadRec = self.threads[id];
        if t.state == T_BLOCKED {
            t.state = T_RUNNABLE;
        }
        self.threads.set(id, t);
    }

    pub fn cond_enqueue(&mut self, id: usize, cond: u64)
        requires
            old(self).wf(),
            id < old(self)@.threads.len(),
        ensures
            final(self).wf(),
            final(self)@ == (StateView {
                next_cond_seq: old(self)@.next_cond_seq.wrapping_add(1),
                ..old(self)@.with_thread(
                    id as int,
                    ThreadRec {
                        signaled: false,
                        cond_key: cond,
                        cond_seq: old(self)@.next_cond_seq,
                        ..old(self)@.threads[id as int]
                    },
                )
            }),
    {
        let seq: u64 = self.next_cond_seq;
        self.next_cond_seq = seq.wrapping_add(1);
        let mut t: ThreadRec = self.threads[id];
        t.signaled = false;
        t.cond_key = cond;
        t.cond_seq = seq;
        self.threads.set(id, t);
    }

    fn longest_waiting(&self, pid: u32, cond: u64) -> (r: Option<usize>)
        ensures
            match longest(self@.threads, pid, cond, self@.threads.len() as int) {
                Some(i) => r == Some(i as usize) && 0 <= i < self@.threads.len()
                    && self@.threads[i].queued(pid, cond),
                None => r is None && forall|i: int|
                    0 <= i < self@.threads.len() ==> !(#[trigger] self@.threads[i]).queued(pid, cond),
            },
    {
        let mut best: Option<usize> = None;
        let mut i: usize = 0;
        while i < self.threads.len()
            invariant
                i <= self.threads@.len(),
                match longest(self.threads@, pid, cond, i as int) {
                    Some(k) => best == Some(k as usize) && 0 <= k < i,
                    None => best is None,
                },
            decreases self.threads@.len() - i,
        {
            let t = self.threads[i];
            if t.pid == pid && t.cond_key == cond && t.state != T_EXITED {
                best = match best {
                    Some(k) => if t.cond_seq < self.threads[k].cond_seq {
                        Some(i)
                    } else {
                        Some(k)
                    },
                    None => Some(i),
                };
            }
            i += 1;
        }
        proof {
            lemma_longest(self.threads@, pid, cond, self.threads@.len() as int);
        }
        best
    }

    /// Signal the longest-waiting thread of `pid` queued on `cond`, or all.
    pub fn cond_wake(&mut self, pid: u32, cond: u64, all: bool)
        requires
            old(self).wf(),
            cond != 0,
        ensures
            final(self).wf(),
            final(self)@ == (if all {
                old(self)@.all_signaled(pid, cond)
            } else {
                old(self)@.one_signaled(pid, cond)
            }),
    {
        let ghost was = self@;
        loop
            invariant
                cond != 0,
                self.wf(),
                was == old(self)@,
                all || self@ == was,
                self@ == (StateView { threads: self@.threads, ..was }),
                self@.all_signaled(pid, cond) == was.all_signaled(pid, cond),
            decreases count_queued(self@.threads, pid, cond, self@.threads.len() as int),
        {
            let id: usize = match self.longest_waiting(pid, cond) {
                Some(id) => id,
                None => {
                    assert(self@.all_signaled(pid, cond).threads =~= self@.threads);
                    return;
                },
            };
            let ghost before = self@;
            let mut t: ThreadRec = self.threads[id];
            t.cond_key = 0;
            t.signaled = true;
            if t.state == T_BLOCKED {
                t.state = T_RUNNABLE;
            }
            self.threads.set(id, t);
            proof {
                assert(self@.threads =~= before.threads.update(
                    id as int,
                    before.threads[id as int].signal(),
                ));
                assert(self@.all_signaled(pid, cond).threads =~= before.all_signaled(
                    pid,
                    cond,
                ).threads);
                lemma_count_queued(
                    before.threads,
                    pid,
                    cond,
                    id as int,
                    before.threads.len() as int,
                );
            }
            if !all {
                return;
            }
        }
    }

    /// Release every blocked thread whose deadline has passed.
    pub(super) fn expire_deadlines(&mut self)
        requires
            old(self).wf(),
        ensures
            final(self).wf(),
            final(self)@ == old(self)@.expired(),
    {
        let now: u64 = self.clock_ns;
        let n: usize = self.threads.len();
        let ghost was = self.threads@;
        let mut i: usize = 0;
        while i < n
            invariant
                i <= n == self.threads@.len() == was.len(),
                *self == (State { threads: self.threads, ..*old(self) }),
                forall|k: int| 0 <= k < i ==> self.threads@[k] == (#[trigger] was[k]).expired(now),
                forall|k: int| i <= k < n ==> self.threads@[k] == #[trigger] was[k],
            decreases n - i,
        {
            let mut t: ThreadRec = self.threads[i];
            if t.state == T_BLOCKED && t.deadline != 0 && t.deadline <= now {
                t.deadline = 0;
                t.timed_out = true;
                t.state = T_RUNNABLE;
                self.threads.set(i, t);
            }
            i += 1;
        }
        assert(self@.threads =~= old(self)@.expired().threads);
    }

    /// The threads of `pid` leave the schedule.
    pub(super) fn retire(&mut self, pid: u32, newly: bool)
        requires
            old(self).wf(),
        ensures
            final(self).wf(),
            final(self)@ == (if newly {
                old(self)@.newly_retired(pid)
            } else {
                old(self)@.retired(pid)
            }),
    {
        let n: usize = self.threads.len();
        let ghost was = self.threads@;
        let mut i: usize = 0;
        while i < n
            invariant
                i <= n == self.threads@.len() == was.len(),
                *self == (State { threads: self.threads, ..*old(self) }),
                forall|k: int|
                    0 <= k < i ==> self.threads@[k] == (if newly {
                        (#[trigger] was[k]).newly_retired(pid)
                    } else {
                        was[k].retired(pid)
                    }),
                forall|k: int| i <= k < n ==> self.threads@[k] == #[trigger] was[k],
            decreases n - i,
        {
            let mut t: ThreadRec = self.threads[i];
            if t.pid == pid && (!newly || t.state != T_EXITED) {
                t.state = T_EXITED;
                t.cond_key = 0;
                t.deadline = 0;
                self.threads.set(i, t);
            }
            i += 1;
        }
        assert(self@.threads =~= if newly {
            old(self)@.newly_retired(pid).threads
        } else {
            old(self)@.retired(pid).threads
        });
    }

    /// An exited, unreaped child of `parent`: the one named, or the lowest.
    pub fn exited_child(&self, parent: u32, which: Option<u32>) -> (r: Option<u32>)
        requires
            self.wf(),
        ensures
            r == exited_from(self@.procs, parent, which, 0),
    {
        let mut i: usize = 0;
        while i < self.procs.len()
            invariant
                self.wf(),
                i <= self.procs@.len(),
                exited_from(self.procs@, parent, which, 0) == exited_from(
                    self.procs@,
                    parent,
                    which,
                    i as int,
                ),
            decreases self.procs@.len() - i,
        {
            let p = self.procs[i];
            let named: bool = match which {
                Some(w) => w == i as u32,
                None => true,
            };
            if p.parent == parent && (p.state == P_EXITED || p.killed) && !p.reaped && named {
                return Some(i as u32);
            }
            i += 1;
        }
        None
    }

    /// Whether `parent` has a child it could still wait for.
    pub fn has_child(&self, parent: u32, which: Option<u32>) -> (r: bool)
        requires
            self.wf(),
        ensures
            r == exists|i: int|
                0 <= i < self@.procs.len() && child_left(#[trigger] self@.procs[i], parent, which, i),
    {
        let mut i: usize = 0;
        while i < self.procs.len()
            invariant
                self.wf(),
                i <= self.procs@.len(),
                forall|k: int|
                    0 <= k < i ==> !child_left(#[trigger] self@.procs[k], parent, which, k),
            decreases self.procs@.len() - i,
        {
            let p = self.procs[i];
            let named: bool = match which {
                Some(w) => w == i as u32,
                None => true,
            };
            if p.parent == parent && !p.reaped && named {
                assert(child_left(self@.procs[i as int], parent, which, i as int));
                return true;
            }
            i += 1;
        }
        false
    }

    /// Whether any live process has threads outside the scheduler, which
    /// could still wake someone when the run looks idle.
    pub fn any_outside_threads(&self) -> (r: bool)
        ensures
            r == exists|i: int|
                0 <= i < self@.procs.len() && (#[trigger] self@.procs[i]).state == P_LIVE
                    && self@.procs[i].has_outside_threads,
    {
        let mut i: usize = 0;
        while i < self.procs.len()
            invariant
                i <= self.procs@.len(),
                forall|k: int|
                    0 <= k < i ==> !((#[trigger] self@.procs[k]).state == P_LIVE
                        && self@.procs[k].has_outside_threads),
            decreases self.procs@.len() - i,
        {
            let p = self.procs[i];
            if p.state == P_LIVE && p.has_outside_threads {
                assert(self@.procs[i as int] == p);
                return true;
            }
            i += 1;
        }
        false
    }

    /// True while some thread that has not exited belongs to a live process.
    pub fn any_alive(&self) -> (r: bool)
        ensures
            r == exists|i: int|
                0 <= i < self@.threads.len() && (#[trigger] self@.threads[i]).state != T_EXITED,
    {
        let mut i: usize = 0;
        while i < self.threads.len()
            invariant
                i <= self.threads@.len(),
                forall|k: int| 0 <= k < i ==> (#[trigger] self@.threads[k]).state == T_EXITED,
            decreases self.threads@.len() - i,
        {
            if self.threads[i].state != T_EXITED {
                assert(self@.threads[i as int].state != T_EXITED);
                return true;
            }
            i += 1;
        }
        false
    }
}

} // verus!
