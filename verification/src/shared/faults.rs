//! Crashes on purpose, and restarts.

use vstd::prelude::*;
use super::{
    Faults, ProcRec, State, StateView, ThreadRec, MAX_PENDING_KILLS, MAX_PROCS, MAX_THREADS,
    NO_LIMIT, NO_PROC, P_LIVE, RESTART_ALWAYS, RESTART_KEY, RESTART_NEVER, RESTART_ON_FAILURE,
    T_BLOCKED, WAIT_KEY,
};
use crate::rng;

verus! {

/// A number from `lo` to `hi`, drawn in a state of the generator
pub open spec fn drawn(state: Seq<u64>, lo: u64, hi: u64) -> u64 {
    (lo + rng::scaled(rng::output(state), (hi - lo + 1) as u64)) as u64
}

pub open spec fn at_least_one(n: u64) -> u64 {
    if n < 1 {
        1
    } else {
        n
    }
}

impl Faults {
    /// Crashes are still to be injected.
    pub open spec fn will_crash(self) -> bool {
        self.crash_hi_ns != 0 && self.crashes_left != 0
    }
}

impl ProcRec {
    /// Its crash is due.
    pub open spec fn crash_due(self, now: u64) -> bool {
        self.crash_at != 0 && self.crash_at <= now && self.state == P_LIVE && !self.killed
    }

    /// It is started again after a death with `status`.
    pub open spec fn comes_back(self, status: i32) -> bool {
        self.replaced_by != NO_PROC || ((self.faults.restart == RESTART_ALWAYS || (
        self.faults.restart == RESTART_ON_FAILURE && status != 0)) && self.spec != NO_PROC
            && self.faults.restarts_left > 0)
    }
}

impl StateView {
    /// The crash time of a life that starts then has been drawn.
    pub open spec fn crash_drawn(self, pid: int, life_starts: u64) -> StateView {
        let p = self.procs[pid];
        if p.faults.will_crash() {
            let after = drawn(self.fault_rng, p.faults.crash_lo_ns, p.faults.crash_hi_ns);
            StateView {
                fault_rng: rng::advanced(self.fault_rng),
                ..self.with_proc(
                    pid,
                    ProcRec { crash_at: at_least_one(life_starts.wrapping_add(after)), ..p },
                )
            }
        } else {
            self.with_proc(pid, ProcRec { crash_at: 0, ..p })
        }
    }

    pub open spec fn faults_set(self, pid: int, faults: Faults, spec_index: u32) -> StateView {
        self.with_proc(
            pid,
            ProcRec { faults, spec: spec_index, ..self.procs[pid] },
        ).crash_drawn(pid, self.clock_ns)
    }

    /// The victim has no next life.
    pub open spec fn stays_dead(self, victim: int) -> bool {
        let p = self.procs[victim];
        p.replaced_by != NO_PROC || p.spec == NO_PROC || p.faults.restarts_left == 0
            || self.procs.len() >= MAX_PROCS || self.threads.len() >= MAX_THREADS
    }

    /// The next life of `victim`: a new process on the same host whose main
    /// thread is blocked until the restart delay is over.
    pub open spec fn restart_registered(self, victim: int) -> StateView {
        if self.stays_dead(victim) {
            self
        } else {
            let dead = self.procs[victim];
            let f = dead.faults;
            let next = self.procs.len() as int;
            let left = if f.restarts_left == NO_LIMIT {
                NO_LIMIT
            } else {
                (f.restarts_left - 1) as u32
            };
            let starts = self.clock_ns.wrapping_add(
                at_least_one(drawn(self.fault_rng, f.restart_delay_lo_ns, f.restart_delay_hi_ns)),
            );
            let s = self.proc_added(dead.host, NO_PROC).with_proc(
                next,
                ProcRec {
                    faults: Faults { restarts_left: left, ..f },
                    spec: dead.spec,
                    restart_of: victim as u32,
                    ..ProcRec::fresh(dead.host, NO_PROC)
                },
            ).with_proc(victim, ProcRec { replaced_by: next as u32, ..dead }).thread_added(
                next as u32,
            ).with_thread(
                self.threads.len() as int,
                ThreadRec {
                    state: T_BLOCKED,
                    key: RESTART_KEY,
                    deadline: starts,
                    ..ThreadRec::fresh(next as u32)
                },
            );
            let drawn = (StateView {
                fault_rng: rng::advanced(self.fault_rng),
                ..s
            }).crash_drawn(next, starts);
            StateView { restarts: self.restarts.wrapping_add(1), ..drawn }
        }
    }

    /// The parent's `waitpid` looks again.
    pub open spec fn parent_woken(self, pid: int) -> StateView {
        if self.procs[pid].parent != NO_PROC {
            self.key_woken(self.procs[pid].parent, WAIT_KEY)
        } else {
            self
        }
    }

    /// The parent is to be told of the death, if it is of the run.
    pub open spec fn loss_noted(self, pid: int) -> StateView {
        let parent = self.procs[pid].parent as int;
        if parent < self.procs.len() {
            self.with_proc(parent, ProcRec { dead_child: pid as u32, ..self.procs[parent] })
        } else {
            self
        }
    }

    /// The descriptors of `pid` are closed, which peers may see now.
    pub open spec fn hung_up(self, pid: u32) -> StateView {
        (StateView { net: self.net.refs_set(pid, Seq::empty()), ..self }).io_woken()
    }

    /// A violent death
    pub open spec fn crashed(self, victim: int) -> StateView {
        let s = self.retired(victim as u32);
        let s = s.with_proc(victim, ProcRec { killed: true, crash_at: 0, ..s.procs[victim] });
        let s = s.hung_up(victim as u32).parent_woken(victim).loss_noted(victim);
        if s.procs[victim].faults.restart != RESTART_NEVER {
            s.restart_registered(victim)
        } else {
            s
        }
    }

    /// One of its crashes is used up, it has crashed, and its real pid is
    /// to be signaled.
    pub open spec fn condemned(self, pid: int) -> StateView {
        let p = self.procs[pid];
        let left = if p.faults.crashes_left == NO_LIMIT {
            NO_LIMIT
        } else {
            (p.faults.crashes_left - 1) as u32
        };
        let faults = Faults { crashes_left: left, ..p.faults };
        let s = self.with_proc(pid, ProcRec { faults, crash_at: 0, ..p }).crashed(pid);
        StateView {
            crashes_injected: s.crashes_injected.wrapping_add(1),
            kills: s.kills.push(p.real_pid),
            ..s
        }
    }

    /// Every process from number `pid` up to `n` whose time has come has
    /// crashed, as long as there is room for its pid.
    pub open spec fn crashes_injected_from(self, pid: int, n: int) -> StateView
        decreases n - pid,
    {
        if pid >= n {
            self
        } else if !self.procs[pid].crash_due(self.clock_ns) {
            self.crashes_injected_from(pid + 1, n)
        } else if self.kills.len() >= MAX_PENDING_KILLS {
            self
        } else {
            self.condemned(pid).crashes_injected_from(pid + 1, n)
        }
    }

    pub open spec fn due_crashes_injected(self) -> StateView {
        self.crashes_injected_from(0, self.procs.len() as int)
    }
}

/// The earliest crash time of the first `n` processes
pub open spec fn next_crash_of(procs: Seq<ProcRec>, n: int) -> Option<u64>
    decreases n,
{
    if n <= 0 {
        None
    } else {
        let p = procs[n - 1];
        let before = next_crash_of(procs, n - 1);
        if p.crash_at != 0 && p.state == P_LIVE && !p.killed {
            match before {
                Some(t) => if p.crash_at < t {
                    Some(p.crash_at)
                } else {
                    before
                },
                None => Some(p.crash_at),
            }
        } else {
            before
        }
    }
}

/// A crash condemns nobody else and takes no process out of the table.
proof fn lemma_crashed(s: StateView, victim: int)
    requires
        0 <= victim < s.procs.len(),
    ensures
        s.crashed(victim).kills == s.kills,
        s.crashed(victim).procs.len() >= s.procs.len(),
{
}

impl State {
    /// A number from `lo` to `hi` of the stream of faults
    fn draw(&mut self, lo: u64, hi: u64) -> (r: u64)
        requires
            old(self).wf(),
            lo <= hi,
            hi - lo < u64::MAX,
        ensures
            final(self).wf(),
            r == drawn(old(self)@.fault_rng, lo, hi),
            lo <= r <= hi,
            final(self)@ == (StateView {
                fault_rng: rng::advanced(old(self)@.fault_rng),
                ..old(self)@
            }),
    {
        let n: u64 = self.fault_rng.below(hi - lo + 1);
        lo + n
    }

    pub(super) fn set_proc(&mut self, pid: u32, p: ProcRec)
        requires
            old(self).wf(),
            pid < old(self)@.procs.len(),
            p.wf(),
        ensures
            final(self).wf(),
            final(self)@ == old(self)@.with_proc(pid as int, p),
    {
        self.procs.set(pid as usize, p);
    }

    /// Fault settings of a process the launcher starts from run-file entry
    /// `spec_index`; its first crash time is drawn now.
    pub fn set_faults(&mut self, pid: u32, faults: Faults, spec_index: u32)
        requires
            old(self).wf(),
            pid < old(self)@.procs.len(),
            faults.wf(),
        ensures
            final(self).wf(),
            final(self)@ == old(self)@.faults_set(pid as int, faults, spec_index),
    {
        let mut p: ProcRec = self.procs[pid as usize];
        p.faults = faults;
        p.spec = spec_index;
        // A crash time of the old settings is not one of the new ones
        let ghost was = p;
        p.crash_at = 0;
        self.set_proc(pid, p);
        let from: u64 = self.clock_ns;
        self.draw_crash(pid, from);
        proof {
            let view = old(self)@;
            let a = view.with_proc(pid as int, p);
            let b = view.with_proc(pid as int, was);
            assert(a.crash_drawn(pid as int, from).procs =~= b.crash_drawn(pid as int, from).procs);
        }
    }

    fn draw_crash(&mut self, pid: u32, life_starts: u64)
        requires
            old(self).wf(),
            pid < old(self)@.procs.len(),
        ensures
            final(self).wf(),
            final(self)@ == old(self)@.crash_drawn(pid as int, life_starts),
    {
        let mut p: ProcRec = self.procs[pid as usize];
        let f: Faults = p.faults;
        p.crash_at = if f.crash_hi_ns == 0 || f.crashes_left == 0 {
            0
        } else {
            let after: u64 = self.draw(f.crash_lo_ns, f.crash_hi_ns);
            let at: u64 = life_starts.wrapping_add(after);
            if at < 1 {
                1
            } else {
                at
            }
        };
        self.set_proc(pid, p);
    }

    /// Its descriptors are closed: peers may see EOF or EPIPE now.
    pub(super) fn hang_up(&mut self, pid: u32)
        requires
            old(self).wf(),
        ensures
            final(self).wf(),
            final(self)@ == old(self)@.hung_up(pid),
    {
        self.net.process_died(pid);
        self.wake_io();
    }

    pub(super) fn wake_parent(&mut self, pid: u32)
        requires
            old(self).wf(),
            pid < old(self)@.procs.len(),
        ensures
            final(self).wf(),
            final(self)@ == old(self)@.parent_woken(pid as int),
    {
        let parent: u32 = self.procs[pid as usize].parent;
        if parent != NO_PROC {
            self.wake_all(parent, WAIT_KEY);
        }
    }

    pub(super) fn note_loss(&mut self, pid: u32)
        requires
            old(self).wf(),
            pid < old(self)@.procs.len(),
        ensures
            final(self).wf(),
            final(self)@ == old(self)@.loss_noted(pid as int),
    {
        let parent: u32 = self.procs[pid as usize].parent;
        if (parent as usize) < self.procs.len() {
            let mut p: ProcRec = self.procs[parent as usize];
            assert(self@.procs[parent as int].wf());
            p.dead_child = pid;
            self.set_proc(parent, p);
        }
    }

    /// Everything a violent death means to the rest of the run, done here
    /// and now rather than when the launcher notices: the process's threads
    /// leave the schedule, its virtual sockets close (peers see EOF or
    /// EPIPE from this point), its parent's `waitpid` wakes and is told of it,
    /// and its restart, if it gets one, is registered. The caller sends the signal.
    pub fn crash(&mut self, victim: u32)
        requires
            old(self).wf(),
            victim < old(self)@.procs.len(),
        ensures
            final(self).wf(),
            final(self)@ == old(self)@.crashed(victim as int),
    {
        self.retire(victim, false);
        let mut p: ProcRec = self.procs[victim as usize];
        p.killed = true;
        p.crash_at = 0;
        self.set_proc(victim, p);
        self.hang_up(victim);
        self.wake_parent(victim);
        self.note_loss(victim);
        if self.procs[victim as usize].faults.restart != RESTART_NEVER {
            self.register_restart(victim);
        }
    }

    /// Whether the launcher will be asked to start `pid` again after it
    /// died with `status`.
    pub fn will_restart(&self, pid: u32, status: i32) -> (r: bool)
        requires
            pid < self@.procs.len(),
        ensures
            r == self@.procs[pid as int].comes_back(status),
    {
        let p = self.procs[pid as usize];
        if p.replaced_by != NO_PROC {
            return true;
        }
        let wanted: bool = if p.faults.restart == RESTART_ALWAYS {
            true
        } else if p.faults.restart == RESTART_ON_FAILURE {
            status != 0
        } else {
            false
        };
        wanted && p.spec != NO_PROC && p.faults.restarts_left > 0
    }

    /// The next life of `victim`: a new process on the same host whose main
    /// thread is blocked until the restart delay is over. The real process
    /// is the launcher's to spawn; when it does cannot matter, since the
    /// thread is not runnable before its time and a baton handed to a
    /// process that has not attached yet waits for it.
    pub(super) fn register_restart(&mut self, victim: u32)
        requires
            old(self).wf(),
            victim < old(self)@.procs.len(),
        ensures
            final(self).wf(),
            final(self)@ == old(self)@.restart_registered(victim as int),
    {
        let dead: ProcRec = self.procs[victim as usize];
        let mut faults: Faults = dead.faults;
        if dead.replaced_by != NO_PROC || dead.spec == NO_PROC || faults.restarts_left == 0
            || self.procs.len() >= MAX_PROCS || self.threads.len() >= MAX_THREADS {
            return;
        }
        proof {
            assert(self@.procs[victim as int].wf());
        }
        let ghost was = self@;
        let down_for: u64 = self.draw(faults.restart_delay_lo_ns, faults.restart_delay_hi_ns);
        let starts: u64 = self.clock_ns.wrapping_add(
            if down_for < 1 {
                1
            } else {
                down_for
            },
        );
        let next: u32 = self.add_proc(dead.host, NO_PROC);
        if faults.restarts_left != NO_LIMIT {
            faults.restarts_left = faults.restarts_left - 1;
        }
        let mut p: ProcRec = self.procs[next as usize];
        p.faults = faults;
        p.spec = dead.spec;
        p.restart_of = victim;
        self.set_proc(next, p);
        let mut old_life: ProcRec = dead;
        old_life.replaced_by = next;
        self.set_proc(victim, old_life);
        let main: usize = self.add_thread(next);
        let mut t: ThreadRec = self.threads[main];
        t.state = T_BLOCKED;
        t.key = RESTART_KEY;
        t.deadline = starts;
        self.threads.set(main, t);
        self.draw_crash(next, starts);
        self.restarts = self.restarts.wrapping_add(1);
    }

    /// Crash every live process whose time has come. Their real pids are
    /// queued for the caller (`take_kills`). One that has not attached yet
    /// has no pid to signal and is crashed on a later check.
    pub(super) fn inject_due_crashes(&mut self)
        requires
            old(self).wf(),
        ensures
            final(self).wf(),
            final(self)@ == old(self)@.due_crashes_injected(),
    {
        let n: u32 = self.procs.len() as u32;
        let mut pid: u32 = 0;
        while pid < n
            invariant
                self.wf(),
                pid <= n <= self@.procs.len(),
                old(self)@.due_crashes_injected() == self@.crashes_injected_from(
                    pid as int,
                    n as int,
                ),
            decreases n - pid,
        {
            let p: ProcRec = self.procs[pid as usize];
            let due: bool = p.crash_at != 0 && p.crash_at <= self.clock_ns;
            if due && p.state == P_LIVE && !p.killed {
                if self.pending_kills.len() >= MAX_PENDING_KILLS {
                    return;
                }
                self.condemn(pid);
            }
            pid += 1;
        }
    }

    fn condemn(&mut self, pid: u32)
        requires
            old(self).wf(),
            pid < old(self)@.procs.len(),
            old(self)@.procs[pid as int].crash_at != 0,
            old(self)@.kills.len() < MAX_PENDING_KILLS,
        ensures
            final(self).wf(),
            final(self)@ == old(self)@.condemned(pid as int),
            final(self)@.procs.len() >= old(self)@.procs.len(),
    {
        let mut p: ProcRec = self.procs[pid as usize];
        assert(self@.procs[pid as int].wf());
        let condemned: i32 = p.real_pid;
        if p.faults.crashes_left != NO_LIMIT {
            p.faults.crashes_left = p.faults.crashes_left - 1;
        }
        p.crash_at = 0;
        let ghost was = self@;
        self.set_proc(pid, p);
        let ghost marked = self@;
        assert(marked == was.with_proc(pid as int, p));
        self.crash(pid);
        let ghost gone = self@;
        assert(gone == marked.crashed(pid as int));
        proof {
            lemma_crashed(marked, pid as int);
        }
        self.crashes_injected = self.crashes_injected.wrapping_add(1);
        self.pending_kills.push(condemned);
        assert(self@ =~= (StateView {
            crashes_injected: gone.crashes_injected.wrapping_add(1),
            kills: gone.kills.push(condemned),
            ..gone
        }));
    }

    pub(super) fn next_crash(&self) -> (r: Option<u64>)
        ensures
            r == next_crash_of(self@.procs, self@.procs.len() as int),
    {
        let mut first: Option<u64> = None;
        let mut i: usize = 0;
        while i < self.procs.len()
            invariant
                i <= self.procs@.len(),
                first == next_crash_of(self.procs@, i as int),
            decreases self.procs@.len() - i,
        {
            let p: ProcRec = self.procs[i];
            if p.crash_at != 0 && p.state == P_LIVE && !p.killed {
                first = match first {
                    Some(t) => if p.crash_at < t {
                        Some(p.crash_at)
                    } else {
                        Some(t)
                    },
                    None => Some(p.crash_at),
                };
            }
            i += 1;
        }
        first
    }

    /// Real pids condemned since the last call; the caller sends `SIGKILL`.
    pub fn take_kills(&mut self) -> (r: Vec<i32>)
        requires
            old(self).wf(),
        ensures
            final(self).wf(),
            r@ == old(self)@.kills,
            final(self)@ == (StateView { kills: Seq::empty(), ..old(self)@ }),
    {
        let mut kills: Vec<i32> = Vec::new();
        kills.append(&mut self.pending_kills);
        assert(kills@ =~= old(self)@.kills);
        assert(self@.kills =~= Seq::<i32>::empty());
        kills
    }
}

} // verus!
