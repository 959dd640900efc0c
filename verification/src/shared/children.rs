//! Processes that guests start, wait for and kill.

use vstd::prelude::*;
use super::waiting;
use super::{
    is_virtual_pid, proc_of, vpid_of, ProcRec, State, StateView, ThreadRec, MAX_PROCS, MAX_THREADS,
    NO_PROC, P_EXITED, T_EXITED,
};
use crate::launch::SIGKILL;
use crate::shared;

verus! {

pub const SIGTERM: i32 = 15;

/// How many signals there are, counted from 0
pub const SIGNALS: i32 = 32;

/// What became of a wait for a child
#[derive(Debug, Clone, Copy, PartialEq, Eq, Structural)]
pub enum Waited {
    /// Not a process of the run: the real call is the right one.
    Kernel,
    /// This child has exited: its number in the run, and its real pid
    Found(u32, i32),
    NoChild,
    /// None has exited, and the caller does not wait.
    Nothing,
    /// Park until one has.
    Park,
}

/// What became of a signal
#[derive(Debug, Clone, Copy, PartialEq, Eq, Structural)]
pub enum Killed {
    /// Not a process of the run: the real call is the right one.
    Kernel,
    NoProcess,
    /// To the caller's own process, with its real pid: its handler runs as
    /// a point of the schedule.
    Own(i32),
    /// Signal 0 only asks whether there is such a process.
    Exists,
    Invalid,
    /// The target is parked: it takes the signal when it next takes the
    /// baton up.
    Queued(u32),
    /// The target is parked, so it dies where it stands, with all that its
    /// death means to the run.
    Fatal(u32),
}

/// The threads of `pid` other than `me` are gone.
pub open spec fn others_gone(threads: Seq<ThreadRec>, me: int, pid: u32) -> Seq<ThreadRec> {
    threads.map(
        |i: int, t: ThreadRec|
            if t.pid == pid && i != me {
                ThreadRec { state: T_EXITED, ..t }
            } else {
                t
            },
    )
}

/// Those among the first `n` that were not gone before, with their states
pub open spec fn retired_of(threads: Seq<ThreadRec>, me: int, pid: u32, n: int) -> Seq<(usize, u32)>
    decreases n,
{
    if n <= 0 {
        Seq::empty()
    } else {
        let t = threads[n - 1];
        let before = retired_of(threads, me, pid, n - 1);
        if t.pid == pid && n - 1 != me && t.state != T_EXITED {
            before.push(((n - 1) as usize, t.state))
        } else {
            before
        }
    }
}

/// With the states in the list put back
pub open spec fn put_back(threads: Seq<ThreadRec>, list: Seq<(usize, u32)>) -> Seq<ThreadRec>
    decreases list.len(),
{
    if list.len() == 0 {
        threads
    } else {
        let before = put_back(threads, list.drop_last());
        let (i, state) = list.last();
        before.update(i as int, ThreadRec { state, ..before[i as int] })
    }
}

proof fn lemma_retired_of(threads: Seq<ThreadRec>, me: int, pid: u32, n: int)
    requires
        0 <= n <= threads.len() <= usize::MAX,
    ensures
        forall|k: int|
            #![trigger retired_of(threads, me, pid, n)[k]]
            0 <= k < retired_of(threads, me, pid, n).len() ==> retired_of(
                threads,
                me,
                pid,
                n,
            )[k].0 < n,
    decreases n,
{
    if n > 0 {
        lemma_retired_of(threads, me, pid, n - 1);
        let before = retired_of(threads, me, pid, n - 1);
        let list = retired_of(threads, me, pid, n);
        assert forall|k: int| #![trigger list[k]] 0 <= k < list.len() implies list[k].0 < n by {
            if k < before.len() {
                assert(list[k] == before[k]);
            }
        }
    }
}

impl StateView {
    /// A child of `me` on its host, with its main thread runnable
    pub open spec fn child_added(self, me: int) -> StateView {
        self.proc_added(self.procs[me].host, me as u32).thread_added(self.procs.len() as u32)
    }

    /// A child that never came to be: nobody will run or reap it.
    pub open spec fn child_gone(self, child: int) -> StateView {
        StateView {
            procs: self.procs.update(
                child,
                ProcRec { state: P_EXITED, reaped: true, ..self.procs[child] },
            ),
            threads: self.threads.map_values(
                |t: ThreadRec|
                    if t.pid == child {
                        ThreadRec { state: T_EXITED, ..t }
                    } else {
                        t
                    },
            ),
            ..self
        }
    }

    /// It was collected.
    pub open spec fn collected(self, child: int) -> StateView {
        self.with_proc(child, ProcRec { reaped: true, ..self.procs[child] })
    }

    /// There is a process `pid` that is not as good as dead.
    pub open spec fn alive(self, pid: u32) -> bool {
        pid < self.procs.len() && self.procs[pid as int].state != P_EXITED
            && !self.procs[pid as int].killed
    }

    /// `waitpid`, called by process `me`. Process groups are not modelled:
    /// any pid that is not positive means any child.
    pub open spec fn waits(self, me: u32, vpid: i32, nohang: bool) -> (StateView, Waited) {
        let which = if vpid > 0 {
            shared::proc_named(vpid)
        } else {
            None
        };
        if vpid > 0 && vpid < shared::VPID_BASE {
            (self, Waited::Kernel)
        } else if vpid > 0 && which is None {
            (self, Waited::NoChild)
        } else {
            match waiting::exited_from(self.procs, me, which, 0) {
                Some(c) => (
                    self.collected(c as int),
                    Waited::Found(c, self.procs[c as int].real_pid),
                ),
                None => (
                    self,
                    if !(exists|i: int|
                        0 <= i < self.procs.len() && waiting::child_left(
                            #[trigger] self.procs[i],
                            me,
                            which,
                            i,
                        )) {
                        Waited::NoChild
                    } else if nohang {
                        Waited::Nothing
                    } else {
                        Waited::Park
                    },
                ),
            }
        }
    }

    /// `kill`, called by process `me`. A handler of another guest would run
    /// without the baton, so what would end it ends it at once.
    pub open spec fn kills(self, me: u32, vpid: i32, sig: i32) -> (StateView, Killed) {
        if vpid < shared::VPID_BASE {
            (self, Killed::Kernel)
        } else {
            match shared::proc_named(vpid) {
                None => (self, Killed::NoProcess),
                Some(target) => if !self.alive(target) {
                    (self, Killed::NoProcess)
                } else if target == me {
                    (
                        if 1 <= sig < SIGNALS {
                            self.sig_counted(target, sig as int)
                        } else {
                            self
                        },
                        Killed::Own(self.procs[target as int].real_pid),
                    )
                } else if sig == 0 {
                    (self, Killed::Exists)
                } else if sig == SIGTERM || sig == SIGKILL {
                    (self.crashed(target as int), Killed::Fatal(target))
                } else if !(1 <= sig < SIGNALS) {
                    (self, Killed::Invalid)
                } else {
                    (self.sig_queued(target, sig as int).io_woken(), Killed::Queued(target))
                },
            }
        }
    }
}

proof fn lemma_exited_from(procs: Seq<ProcRec>, parent: u32, which: Option<u32>, i: int)
    requires
        procs.len() <= u32::MAX,
    ensures
        waiting::exited_from(procs, parent, which, i) matches Some(c) ==> 0 <= c < procs.len(),
    decreases procs.len() - i,
{
    if 0 <= i < procs.len() {
        lemma_exited_from(procs, parent, which, i + 1);
    }
}

impl State {
    /// Register a child of process `me` on the same host, with its main
    /// thread runnable.
    pub fn register_child(&mut self, me: u32) -> (r: u32)
        requires
            old(self).wf(),
            me < old(self)@.procs.len() < MAX_PROCS,
            old(self)@.threads.len() < MAX_THREADS,
        ensures
            final(self).wf(),
            r == old(self)@.procs.len(),
            final(self)@ == old(self)@.child_added(me as int),
    {
        let host: u32 = self.procs[me as usize].host;
        let child: u32 = self.add_proc(host, me);
        self.add_thread(child);
        child
    }

    /// The child never came to be.
    pub fn unregister_child(&mut self, child: u32)
        requires
            old(self).wf(),
            child < old(self)@.procs.len(),
        ensures
            final(self).wf(),
            final(self)@ == old(self)@.child_gone(child as int),
    {
        let mut p: ProcRec = self.procs[child as usize];
        p.state = P_EXITED;
        p.reaped = true;
        self.set_proc(child, p);
        let ghost mid = *self;
        let ghost want = old(self)@.child_gone(child as int).threads;
        let mut i: usize = 0;
        while i < self.threads.len()
            invariant
                i <= self.threads@.len(),
                self.wf(),
                self.threads@.len() == mid.threads@.len(),
                want == old(self)@.child_gone(child as int).threads,
                mid@.threads == old(self)@.threads,
                forall|k: int| 0 <= k < i ==> #[trigger] self.threads@[k] == want[k],
                forall|k: int|
                    i <= k < self.threads@.len() ==> #[trigger] self.threads@[k] == mid.threads@[k],
                self@ == (StateView { threads: self.threads@, ..mid@ }),
            decreases self.threads@.len() - i,
        {
            let mut t: ThreadRec = self.threads[i];
            if t.pid == child {
                t.state = T_EXITED;
                self.threads.set(i, t);
            }
            i += 1;
        }
        assert(self@.threads =~= want);
    }

    /// Before an exec: the other threads of this process die with the old
    /// image. Returns what to put back if the exec fails.
    pub fn retire_other_threads(&mut self, me: usize, pid: u32) -> (r: Vec<(usize, u32)>)
        requires
            old(self).wf(),
        ensures
            final(self).wf(),
            final(self)@ == (StateView {
                threads: others_gone(old(self)@.threads, me as int, pid),
                ..old(self)@
            }),
            r@ == retired_of(old(self)@.threads, me as int, pid, old(self)@.threads.len() as int),
            forall|k: int|
                #![trigger r@[k]]
                0 <= k < r@.len() ==> r@[k].0 < final(self)@.threads.len(),
    {
        let ghost before = self@;
        let ghost want = others_gone(before.threads, me as int, pid);
        let mut out: Vec<(usize, u32)> = Vec::new();
        let mut i: usize = 0;
        while i < self.threads.len()
            invariant
                i <= self.threads@.len(),
                self.wf(),
                self.threads@.len() == before.threads.len(),
                want == others_gone(before.threads, me as int, pid),
                forall|k: int| 0 <= k < i ==> #[trigger] self.threads@[k] == want[k],
                forall|k: int|
                    i <= k < self.threads@.len() ==> #[trigger] self.threads@[k]
                        == before.threads[k],
                self@ == (StateView { threads: self.threads@, ..before }),
                out@ == retired_of(before.threads, me as int, pid, i as int),
            decreases self.threads@.len() - i,
        {
            let mut t: ThreadRec = self.threads[i];
            if t.pid == pid && i != me && t.state != T_EXITED {
                out.push((i, t.state));
                t.state = T_EXITED;
                self.threads.set(i, t);
            }
            i += 1;
        }
        assert(self@.threads =~= want);
        proof {
            lemma_retired_of(before.threads, me as int, pid, i as int);
        }
        out
    }

    pub fn restore_threads(&mut self, retired: &Vec<(usize, u32)>)
        requires
            old(self).wf(),
            forall|k: int|
                #![trigger retired@[k]]
                0 <= k < retired@.len() ==> retired@[k].0 < old(self)@.threads.len(),
        ensures
            final(self).wf(),
            final(self)@ == (StateView {
                threads: put_back(old(self)@.threads, retired@),
                ..old(self)@
            }),
    {
        let ghost before = self@;
        let mut i: usize = 0;
        assert(retired@.take(0) =~= Seq::empty());
        while i < retired.len()
            invariant
                i <= retired@.len(),
                self.wf(),
                self@ == (StateView { threads: put_back(before.threads, retired@.take(i as int)), ..before }),
                self.threads@.len() == before.threads.len(),
                forall|k: int|
                    #![trigger retired@[k]]
                    0 <= k < retired@.len() ==> retired@[k].0 < before.threads.len(),
            decreases retired@.len() - i,
        {
            let (at, state) = retired[i];
            assert(retired@[i as int].0 < before.threads.len());
            let mut t: ThreadRec = self.threads[at];
            t.state = state;
            self.threads.set(at, t);
            assert(retired@.take(i + 1).drop_last() =~= retired@.take(i as int));
            i += 1;
        }
        assert(retired@.take(i as int) =~= retired@);
    }

    /// `waitpid`, called by process `me`: which child it is for, and whether
    /// to wait.
    pub fn wait_for_child(&mut self, me: u32, vpid: i32, nohang: bool) -> (r: Waited)
        requires
            old(self).wf(),
        ensures
            final(self).wf(),
            (final(self)@, r) == old(self)@.waits(me, vpid, nohang),
    {
        if vpid > 0 && !is_virtual_pid(vpid) {
            return Waited::Kernel;
        }
        let which: Option<u32> = if vpid > 0 {
            match proc_of(vpid) {
                Some(p) => Some(p),
                None => {
                    return Waited::NoChild;
                },
            }
        } else {
            None
        };
        proof {
            lemma_exited_from(self@.procs, me, which, 0);
        }
        if let Some(c) = self.exited_child(me, which) {
            let mut p: ProcRec = self.procs[c as usize];
            assert(self@.procs[c as int].wf());
            p.reaped = true;
            self.set_proc(c, p);
            return Waited::Found(c, p.real_pid);
        }
        if !self.has_child(me, which) {
            Waited::NoChild
        } else if nohang {
            Waited::Nothing
        } else {
            Waited::Park
        }
    }

    /// The pid of the parent of process `me`, as guests see it
    pub fn parent_vpid(&self, me: u32) -> (r: i32)
        requires
            me < self@.procs.len(),
            self@.procs[me as int].parent != NO_PROC ==> self@.procs[me as int].parent < MAX_PROCS,
        ensures
            r == (if self@.procs[me as int].parent != NO_PROC {
                shared::vpid(self@.procs[me as int].parent)
            } else {
                1
            }),
    {
        let parent: u32 = self.procs[me as usize].parent;
        if parent != NO_PROC {
            vpid_of(parent)
        } else {
            1
        }
    }

    /// `kill`, called by process `me`
    pub fn kill(&mut self, me: u32, vpid: i32, sig: i32) -> (r: Killed)
        requires
            old(self).wf(),
        ensures
            final(self).wf(),
            (final(self)@, r) == old(self)@.kills(me, vpid, sig),
    {
        if !is_virtual_pid(vpid) {
            return Killed::Kernel;
        }
        let target: u32 = match proc_of(vpid) {
            Some(t) => t,
            None => {
                return Killed::NoProcess;
            },
        };
        if target as usize >= self.procs.len() {
            return Killed::NoProcess;
        }
        let p: ProcRec = self.procs[target as usize];
        if p.state == P_EXITED || p.killed {
            return Killed::NoProcess;
        }
        if target == me {
            if 1 <= sig && sig < SIGNALS {
                self.count_signal(target, sig);
            }
            return Killed::Own(p.real_pid);
        }
        if sig == 0 {
            return Killed::Exists;
        }
        if sig == SIGTERM || sig == SIGKILL {
            self.crash(target);
            return Killed::Fatal(target);
        }
        if !(1 <= sig && sig < SIGNALS) {
            return Killed::Invalid;
        }
        self.queue_signal(target, sig);
        self.wake_io();
        Killed::Queued(target)
    }
}

/// A failed exec leaves the threads as they were: what was retired and put
/// back is the same.
pub proof fn a_failed_exec_changes_nothing(threads: Seq<ThreadRec>, me: int, pid: u32)
    requires
        threads.len() <= MAX_THREADS,
    ensures
        put_back(
            others_gone(threads, me, pid),
            retired_of(threads, me, pid, threads.len() as int),
        ) == threads,
{
    lemma_restored(threads, me, pid, threads.len() as int);
    assert(put_back(
        others_gone(threads, me, pid),
        retired_of(threads, me, pid, threads.len() as int),
    ) =~= threads);
}

proof fn lemma_restored(threads: Seq<ThreadRec>, me: int, pid: u32, n: int)
    requires
        0 <= n <= threads.len() <= MAX_THREADS,
    ensures
        ({
            let gone = others_gone(threads, me, pid);
            let back = put_back(gone, retired_of(threads, me, pid, n));
            &&& back.len() == threads.len()
            &&& forall|i: int| 0 <= i < n ==> #[trigger] back[i] == threads[i]
            &&& forall|i: int| n <= i < threads.len() ==> #[trigger] back[i] == gone[i]
        }),
    decreases n,
{
    if n > 0 {
        lemma_restored(threads, me, pid, n - 1);
        let gone = others_gone(threads, me, pid);
        let before = retired_of(threads, me, pid, n - 1);
        let list = retired_of(threads, me, pid, n);
        let t = threads[n - 1];
        if t.pid == pid && n - 1 != me && t.state != T_EXITED {
            assert(list.drop_last() =~= before);
        } else {
            assert(gone[n - 1] == t);
        }
    }
}

/// A child is collected once: after a wait found it, another wait does not.
pub proof fn a_child_is_collected_once(s: StateView, me: u32, vpid: i32, nohang: bool)
    requires
        s.wf(),
        s.waits(me, vpid, nohang).1 is Found,
    ensures
        ({
            let (after, got) = s.waits(me, vpid, nohang);
            let child = got->Found_0;
            &&& child < s.procs.len()
            &&& after.procs[child as int].reaped
            &&& !s.procs[child as int].reaped
            &&& !waiting::child_left(after.procs[child as int], me, None, child as int)
        }),
{
    let which = if vpid > 0 {
        shared::proc_named(vpid)
    } else {
        None
    };
    lemma_found(s.procs, me, which, 0);
}

proof fn lemma_found(procs: Seq<ProcRec>, parent: u32, which: Option<u32>, i: int)
    requires
        procs.len() <= MAX_PROCS,
    ensures
        waiting::exited_from(procs, parent, which, i) matches Some(c) ==> c < procs.len()
            && waiting::child_left(procs[c as int], parent, which, c as int),
    decreases procs.len() - i,
{
    if 0 <= i < procs.len() {
        lemma_found(procs, parent, which, i + 1);
    }
}

/// A process that another guest killed cannot be killed again.
pub proof fn the_killed_stay_killed(s: StateView, me: u32, vpid: i32, sig: i32, again: i32)
    requires
        s.wf(),
        s.kills(me, vpid, sig).1 is Fatal,
    ensures
        s.kills(me, vpid, sig).0.kills(me, vpid, again).1 == Killed::NoProcess,
{
    let target = shared::proc_named(vpid)->0;
    assert(s.crashed(target as int).procs[target as int].killed);
}

} // verus!
