//! Signals that guests send each other: what waits for each process, and how
//! often it was sent what.

use vstd::prelude::*;
use super::{vpid_of, ProcRec, State, StateView, NO_PROC, P_EXITED, VPID_BASE};
use crate::kq::{Change, Kevent, Told, Watch, EVFILT_PROC, EVFILT_SIGNAL};
use crate::launch::SIGKILL;
use crate::shared;
use crate::signals;
use crate::signals::{Child, Pending, SIGNALS};

verus! {

/// Where the record of a process's signal stands
pub open spec fn sig_place(pid: u32, sig: int) -> int {
    SIGNALS * pid + sig
}

impl StateView {
    /// The signals process `pid` was sent and has not taken
    pub open spec fn pending_of(self, pid: u32) -> Seq<bool> {
        self.sig_pending.subrange(sig_place(pid, 0), sig_place(pid, SIGNALS as int))
    }

    /// How often process `pid` was sent the signal
    pub open spec fn sent_to(self, pid: u32, sig: int) -> u64 {
        self.sig_counts[sig_place(pid, sig)]
    }

    /// What the run says to process `pid` of what it watches: that another is
    /// gone, which one is that was killed and is not reaped yet, or how often
    /// it was sent a signal itself
    pub open spec fn told_of(self, pid: u32, w: Watch) -> Told {
        if w.filter == EVFILT_PROC {
            let i = w.ident - VPID_BASE;
            if 0 <= i < self.procs.len() && self.procs[i].state == P_EXITED {
                Told::Gone(self.procs[i].exit_status)
            } else if 0 <= i < self.procs.len() && self.procs[i].killed {
                Told::Gone(SIGKILL)
            } else {
                Told::Living
            }
        } else if 1 <= w.ident < SIGNALS {
            Told::Count(self.sent_to(pid, w.ident as int))
        } else {
            Told::Living
        }
    }

    /// What it says of each of these watches
    pub open spec fn told_of_all(self, pid: u32, watches: Seq<Watch>) -> Seq<Told> {
        Seq::new(watches.len(), |i: int| self.told_of(pid, watches[i]))
    }

    /// Process `pid` was sent the signal once more.
    pub open spec fn sig_counted(self, pid: u32, sig: int) -> StateView {
        StateView {
            sig_counts: self.sig_counts.update(
                sig_place(pid, sig),
                self.sent_to(pid, sig).wrapping_add(1),
            ),
            ..self
        }
    }

    /// The signal waits for process `pid`.
    pub open spec fn sig_queued(self, pid: u32, sig: int) -> StateView {
        let s = self.sig_counted(pid, sig);
        StateView { sig_pending: s.sig_pending.update(sig_place(pid, sig), true), ..s }
    }

    /// With other signals waiting for process `pid`
    pub open spec fn with_pending(self, pid: u32, pending: Seq<bool>) -> StateView {
        StateView {
            sig_pending: Seq::new(
                self.sig_pending.len(),
                |i: int|
                    if sig_place(pid, 0) <= i < sig_place(pid, SIGNALS as int) {
                        pending[i - sig_place(pid, 0)]
                    } else {
                        self.sig_pending[i]
                    },
            ),
            ..self
        }
    }
}

impl State {
    /// Process `pid` was sent the signal once more.
    pub fn count_signal(&mut self, pid: u32, sig: i32)
        requires
            old(self).wf(),
            pid < old(self)@.procs.len(),
            1 <= sig < SIGNALS,
        ensures
            final(self).wf(),
            final(self)@ == old(self)@.sig_counted(pid, sig as int),
    {
        proof {
            self.lemma_wf();
        }
        let at: usize = SIGNALS * pid as usize + sig as usize;
        let n: u64 = self.sig_counts[at].wrapping_add(1);
        self.sig_counts.set(at, n);
        assert(self@ =~= old(self)@.sig_counted(pid, sig as int));
    }

    /// The signal waits for process `pid`, which takes it when it next takes
    /// the baton up.
    pub fn queue_signal(&mut self, pid: u32, sig: i32)
        requires
            old(self).wf(),
            pid < old(self)@.procs.len(),
            1 <= sig < SIGNALS,
        ensures
            final(self).wf(),
            final(self)@ == old(self)@.sig_queued(pid, sig as int),
    {
        self.count_signal(pid, sig);
        let at: usize = SIGNALS * pid as usize + sig as usize;
        self.sig_pending.set(at, true);
        assert(self@ =~= old(self)@.sig_queued(pid, sig as int));
    }

    /// How often process `pid` was sent the signal
    pub fn signal_count(&self, pid: u32, sig: i32) -> (r: u64)
        requires
            self.wf(),
            pid < self@.procs.len(),
            1 <= sig < SIGNALS,
        ensures
            r == self@.sent_to(pid, sig as int),
    {
        proof {
            self.lemma_wf();
        }
        self.sig_counts[SIGNALS * pid as usize + sig as usize]
    }

    /// A change that process `pid` makes to a kqueue, with how often it was sent
    /// the signal, where the change is of a watch on one
    pub fn change(&self, pid: u32, ev: Kevent, sock: Option<u32>, guest_object: bool) -> (r: Change)
        requires
            self.wf(),
            pid < self@.procs.len(),
        ensures
            r == (Change {
                ev,
                sock,
                guest_object,
                count: if ev.filter == EVFILT_SIGNAL && 1 <= ev.ident < SIGNALS {
                    self@.sent_to(pid, ev.ident as int)
                } else {
                    0
                },
            }),
    {
        let count: u64 = if ev.filter == EVFILT_SIGNAL && 1 <= ev.ident && ev.ident
            < SIGNALS as u64 {
            self.signal_count(pid, ev.ident as i32)
        } else {
            0
        };
        Change { ev, sock, guest_object, count }
    }

    /// What the run says to process `pid` of what it watches
    pub fn told_of(&self, pid: u32, w: &Watch) -> (r: Told)
        requires
            self.wf(),
            pid < self@.procs.len(),
        ensures
            r == self@.told_of(pid, *w),
    {
        proof {
            self.lemma_wf();
        }
        if w.filter == EVFILT_PROC {
            if w.ident < VPID_BASE as u64 || w.ident - VPID_BASE as u64 >= self.procs.len() as u64 {
                return Told::Living;
            }
            let i: usize = (w.ident - VPID_BASE as u64) as usize;
            if self.procs[i].state == P_EXITED {
                Told::Gone(self.procs[i].exit_status)
            } else if self.procs[i].killed {
                Told::Gone(SIGKILL)
            } else {
                Told::Living
            }
        } else if 1 <= w.ident && w.ident < SIGNALS as u64 {
            Told::Count(self.signal_count(pid, w.ident as i32))
        } else {
            Told::Living
        }
    }

    /// What it says of each of these watches
    pub fn told_of_all(&self, pid: u32, watches: &Vec<Watch>) -> (r: Vec<Told>)
        requires
            self.wf(),
            pid < self@.procs.len(),
        ensures
            r@ == self@.told_of_all(pid, watches@),
    {
        let mut out: Vec<Told> = Vec::new();
        let mut i: usize = 0;
        while i < watches.len()
            invariant
                self.wf(),
                pid < self@.procs.len(),
                i <= watches@.len(),
                out@.len() == i,
                forall|k: int|
                    0 <= k < i ==> #[trigger] out@[k] == self@.told_of(pid, watches@[k]),
            decreases watches@.len() - i,
        {
            out.push(self.told_of(pid, &watches[i]));
            i += 1;
        }
        assert(out@ =~= self@.told_of_all(pid, watches@));
        out
    }

    /// A thread of process `pid` takes the baton up: it takes what waits for
    /// the process or for itself and it does not block. What it blocks waits
    /// on, for another.
    pub fn take_signals(&mut self, pid: u32, thread: &mut Pending, blocked: &Vec<bool>) -> (r: Vec<
        i32,
    >)
        requires
            old(self).wf(),
            pid < old(self)@.procs.len(),
            old(thread).wf(),
            blocked@.len() == SIGNALS,
        ensures
            final(self).wf(),
            final(thread).wf(),
            ({
                let waiting = old(self)@.pending_of(pid);
                &&& r@ == signals::all_due(waiting, old(thread)@, blocked@, SIGNALS as int)
                &&& final(self)@ == old(self)@.with_pending(
                    pid,
                    signals::left(waiting, waiting, old(thread)@, blocked@),
                )
                &&& final(thread)@ == signals::left(
                    old(thread)@,
                    waiting,
                    old(thread)@,
                    blocked@,
                )
            }),
    {
        proof {
            self.lemma_wf();
        }
        let from: usize = SIGNALS * pid as usize;
        let mut mine = Pending::new();
        let mut i: usize = 0;
        while i < SIGNALS
            invariant
                i <= SIGNALS,
                mine.wf(),
                self@ == old(self)@,
                self.wf(),
                from == SIGNALS * pid,
                from + SIGNALS <= self.sig_pending@.len(),
                forall|k: int| 0 <= k < i ==> #[trigger] mine@[k] == self.sig_pending@[from + k],
            decreases SIGNALS - i,
        {
            mine.put(i, self.sig_pending[from + i]);
            i += 1;
        }
        assert(mine@ =~= old(self)@.pending_of(pid));
        let out = signals::take(&mut mine, thread, blocked);
        let ghost rest = mine@;
        let ghost want = old(self)@.with_pending(pid, rest);
        let mut i: usize = 0;
        while i < SIGNALS
            invariant
                i <= SIGNALS,
                mine.wf(),
                mine@ == rest,
                want == old(self)@.with_pending(pid, rest),
                from == SIGNALS * pid,
                from + SIGNALS <= old(self)@.sig_pending.len(),
                self.sig_pending@.len() == old(self)@.sig_pending.len(),
                forall|k: int|
                    0 <= k < self.sig_pending@.len() ==> #[trigger] self.sig_pending@[k] == (
                    if k < from + i {
                        want.sig_pending[k]
                    } else {
                        old(self)@.sig_pending[k]
                    }),
                self@ == (StateView { sig_pending: self.sig_pending@, ..old(self)@ }),
                self.wf(),
            decreases SIGNALS - i,
        {
            let b: bool = mine.holds(i as i32);
            self.sig_pending.set(from + i, b);
            i += 1;
        }
        assert(self@ =~= want);
        out
    }
}

impl StateView {
    /// A thread of process `pid` takes the baton up: the child whose death it
    /// is told of, and the state after that. One that blocks the signal leaves
    /// it to another.
    pub open spec fn child_told(self, pid: int, blocked: bool) -> (StateView, Option<Child>) {
        let p = self.procs[pid];
        let dead = p.dead_child as int;
        if blocked || dead >= self.procs.len() {
            (self, None)
        } else {
            let c = self.procs[dead];
            (
                self.with_proc(pid, ProcRec { dead_child: NO_PROC, ..p }),
                Some(
                    Child {
                        pid: shared::vpid(p.dead_child),
                        status: if c.state == P_EXITED {
                            c.exit_status
                        } else {
                            SIGKILL
                        },
                    },
                ),
            )
        }
    }
}

impl State {
    /// A thread of process `pid` takes the baton up: the child whose death it
    /// is told of. `blocked`: it blocks `SIGCHLD`, and leaves it to another.
    pub fn take_child_death(&mut self, pid: u32, blocked: bool) -> (r: Option<Child>)
        requires
            old(self).wf(),
            pid < old(self)@.procs.len(),
        ensures
            final(self).wf(),
            (final(self)@, r) == old(self)@.child_told(pid as int, blocked),
    {
        proof {
            self.lemma_wf();
            assert(self@.procs[pid as int].wf());
        }
        let mut p: ProcRec = self.procs[pid as usize];
        let dead: u32 = p.dead_child;
        if blocked || dead as usize >= self.procs.len() {
            return None;
        }
        let c: ProcRec = self.procs[dead as usize];
        p.dead_child = NO_PROC;
        self.set_proc(pid, p);
        let status: i32 = if c.state == P_EXITED {
            c.exit_status
        } else {
            SIGKILL
        };
        Some(Child { pid: vpid_of(dead), status })
    }
}

/// A parent learns of a death once: it is told of the child that was killed, or
/// whose end was seen, with its status, when a thread of it that does not block
/// the signal takes the baton up, and not again.
#[verifier::spinoff_prover]
#[verifier::rlimit(40)]
pub proof fn a_parent_learns_of_a_death(s: StateView, pid: int, status: i32)
    requires
        s.wf(),
        0 <= pid < s.procs.len(),
        s.procs[pid].parent < s.procs.len(),
        !s.procs[pid].killed,
    ensures
        ({
            let parent = s.procs[pid].parent as int;
            let after = s.bereft(pid, status);
            let (told, child) = after.child_told(parent, false);
            &&& child == Some(Child { pid: shared::vpid(pid as u32), status })
            &&& told.child_told(parent, false).1 is None
            &&& after.child_told(parent, true) == (after, None::<Child>)
            &&& s.crashed(pid).child_told(parent, false).1 == Some(
                Child {
                    pid: shared::vpid(pid as u32),
                    status: if s.procs[pid].state == P_EXITED {
                        s.procs[pid].exit_status
                    } else {
                        SIGKILL
                    },
                },
            )
        }),
{
    shared::laws::lemma_dead(s, pid, status);
    let parent = s.procs[pid].parent as int;
    let after = s.bereft(pid, status);
    assert(after.procs[parent].dead_child == pid as u32);
    lemma_child_told(after, parent, pid);
    lemma_child_told(s.crashed(pid), parent, pid);
}

proof fn lemma_child_told(s: StateView, parent: int, dead: int)
    requires
        0 <= parent < s.procs.len(),
        0 <= dead < s.procs.len() <= NO_PROC,
        s.procs[parent].dead_child == dead,
    ensures
        s.child_told(parent, false).1 == Some(
            Child {
                pid: shared::vpid(dead as u32),
                status: if s.procs[dead].state == P_EXITED {
                    s.procs[dead].exit_status
                } else {
                    SIGKILL
                },
            },
        ),
        s.child_told(parent, false).0.child_told(parent, false).1 is None,
        s.child_told(parent, true) == (s, None::<Child>),
{
}

/// A signal that was queued is counted, and waits for its process until one
/// of its threads that does not block it takes the baton up.
pub proof fn a_queued_signal_waits(s: StateView, pid: u32, sig: int, other: u32)
    requires
        s.wf(),
        pid < s.procs.len(),
        other < s.procs.len(),
        1 <= sig < SIGNALS,
    ensures
        s.sig_queued(pid, sig).pending_of(pid) == s.pending_of(pid).update(sig, true),
        s.sig_queued(pid, sig).sent_to(pid, sig) == s.sent_to(pid, sig).wrapping_add(1),
        other != pid ==> s.sig_queued(pid, sig).pending_of(other) == s.pending_of(other),
{
    assert(s.sig_queued(pid, sig).pending_of(pid) =~= s.pending_of(pid).update(sig, true));
    if other != pid {
        assert(s.sig_queued(pid, sig).pending_of(other) =~= s.pending_of(other));
    }
}

} // verus!
