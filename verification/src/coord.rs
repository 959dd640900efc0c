//! Launcher side of the scheduler: registers the initial processes, hands
//! out the first baton, and passes the baton on when a guest that held it
//! dies.

use vstd::prelude::*;
use crate::netstate;
use crate::netstate::{NetCounts, NetView, MAX_HOSTS};
use crate::shared;
use crate::shared::launcher::Counts;
use crate::shared::{
    Faults, Handoff, State, StateView, MAX_PROCS, MAX_THREADS, NO_PROC, P_EXITED, P_STARTING,
    T_EXITED,
};

verus! {

pub struct Coordinator {
    pub state: State,
    /// Restarts that the full tables ruled out
    pub restarts_refused: u64,
    /// When each process died, in virtual time (0, or none: it did not)
    pub died_at: Vec<u64>,
    /// Virtual time at which the run is over (0: when its processes are)
    pub stop_at_ns: u64,
    /// The run was stopped at that time.
    pub stopped: bool,
    /// Which processes were running then
    pub cut_short: Vec<bool>,
}

#[verifier::ext_equal]
pub struct CoordView {
    pub state: StateView,
    pub restarts_refused: u64,
    pub died_at: Seq<u64>,
    pub stop_at_ns: u64,
    pub stopped: bool,
    pub cut_short: Seq<bool>,
}

impl View for Coordinator {
    type V = CoordView;

    open spec fn view(&self) -> CoordView {
        CoordView {
            state: self.state@,
            restarts_refused: self.restarts_refused,
            died_at: self.died_at@,
            stop_at_ns: self.stop_at_ns,
            stopped: self.stopped,
            cut_short: self.cut_short@,
        }
    }
}

/// What a whole run came to
pub struct Totals {
    pub counts: Counts,
    /// Connections and bytes that went through the virtual network, and
    /// connections that left it for the kernel's
    pub net: NetCounts,
    pub restarts_refused: u64,
    /// When each process died, in virtual time (0: it did not)
    pub died_at: Vec<u64>,
    /// The run reached its `stop-after` time (0: it did not, or had none)
    pub stopped_at: u64,
    /// Which processes were killed by that stop
    pub stopped: Vec<bool>,
}

/// What a death asks of the launcher
pub struct Death {
    /// Real pids to kill: passing the baton on may have crashed someone
    pub kills: Vec<i32>,
    /// The thread that has the baton now, to be woken
    pub wake: Option<usize>,
    /// The process held the baton, and every surviving thread is blocked.
    pub deadlock: bool,
}

/// The first `n` numbers, with zeros where there are none
pub open spec fn filled(s: Seq<u64>, n: nat) -> Seq<u64> {
    Seq::new(
        n,
        |i: int|
            if i < s.len() {
                s[i]
            } else {
                0u64
            },
    )
}

/// The first `n` marks, unset where there are none
pub open spec fn marked(s: Seq<bool>, n: nat) -> Seq<bool> {
    Seq::new(n, |i: int| i < s.len() && s[i])
}

impl CoordView {
    /// A run with a first quantum and nothing registered
    pub open spec fn start(seed: u64, quantum: (u32, u32)) -> CoordView {
        CoordView {
            state: StateView::start(seed, quantum.0, quantum.1),
            restarts_refused: 0,
            died_at: Seq::empty(),
            stop_at_ns: 0,
            stopped: false,
            cut_short: Seq::empty(),
        }
    }

    pub open spec fn registered(self, host: u32, faults: Faults, spec_index: u32) -> CoordView {
        let pid = self.state.procs.len() as u32;
        CoordView {
            state: self.state.proc_added(host, NO_PROC).thread_added(pid).faults_set(
                pid as int,
                faults,
                spec_index,
            ),
            ..self
        }
    }

    /// The tables have room for another life.
    pub open spec fn has_room(self) -> bool {
        self.state.procs.len() < MAX_PROCS && self.state.threads.len() < MAX_THREADS
    }

    /// The process, dead with `status`, gets another life.
    pub open spec fn restarts(self, pid: int, status: i32) -> bool {
        let p = self.state.procs[pid];
        p.comes_back(status) && (p.replaced_by != NO_PROC || self.has_room())
    }

    /// A restart that the full tables rule out is counted.
    pub open spec fn refused(self, pid: int, status: i32) -> CoordView {
        if self.state.procs[pid].comes_back(status) && !self.restarts(pid, status) {
            CoordView { restarts_refused: self.restarts_refused.wrapping_add(1), ..self }
        } else {
            self
        }
    }

    /// The death of a process is on record, with the time of its first.
    pub open spec fn death_noted(self, pid: int) -> CoordView {
        let all = filled(
            self.died_at,
            if self.died_at.len() > pid {
                self.died_at.len()
            } else {
                (pid + 1) as nat
            },
        );
        let now = if self.state.clock_ns < 1 {
            1
        } else {
            self.state.clock_ns
        };
        CoordView {
            died_at: if all[pid] == 0 {
                all.update(pid, now)
            } else {
                all
            },
            ..self
        }
    }

    pub open spec fn died(self, pid: int, status: i32) -> (CoordView, Option<Handoff>) {
        let noted = self.death_noted(pid);
        let (state, handoff) = noted.state.died(pid, status);
        (CoordView { state: StateView { kills: Seq::empty(), ..state }, ..noted }, handoff)
    }

    /// Some thread has not exited.
    pub open spec fn alive(self) -> bool {
        exists|i: int|
            0 <= i < self.state.threads.len() && (#[trigger] self.state.threads[i]).state
                != T_EXITED
    }

    /// The stop time has come.
    pub open spec fn is_over(self) -> bool {
        self.stop_at_ns != 0 && self.state.clock_ns >= self.stop_at_ns
    }

    /// What runs at the stop time is cut short.
    pub open spec fn stopped_when_over(self) -> CoordView {
        if !self.stopped && self.is_over() {
            CoordView {
                stopped: true,
                cut_short: Seq::new(
                    self.state.procs.len(),
                    |i: int| self.state.procs[i].state != P_EXITED,
                ),
                ..self
            }
        } else {
            self
        }
    }
}

impl Coordinator {
    pub closed spec fn wf(self) -> bool {
        self.state.wf()
    }

    pub proof fn lemma_wf(self)
        requires
            self.wf(),
        ensures
            self.state.wf(),
            self@.state.wf(),
    {
        self.state.lemma_wf();
    }

    pub fn new(seed: u64, quantum: (u32, u32)) -> (r: Coordinator)
        requires
            quantum.0 <= quantum.1,
        ensures
            r.wf(),
            r@ == CoordView::start(seed, quantum),
    {
        let r = Coordinator {
            state: State::new(seed, quantum.0, quantum.1),
            restarts_refused: 0,
            died_at: Vec::new(),
            stop_at_ns: 0,
            stopped: false,
            cut_short: Vec::new(),
        };
        assert(r@ =~= CoordView::start(seed, quantum));
        r
    }

    /// Delay for traffic between different hosts, in virtual time.
    pub fn set_net_latency(&mut self, ns: u64)
        requires
            old(self).wf(),
        ensures
            final(self).wf(),
            final(self)@ == (CoordView {
                state: StateView {
                    net: NetView { latency_ns: ns, ..old(self)@.state.net },
                    ..old(self)@.state
                },
                ..old(self)@
            }),
    {
        self.state.set_net_latency(ns);
    }

    /// Virtual time that each hand-off of the baton costs
    pub fn set_switch_cost(&mut self, ns: u64)
        requires
            old(self).wf(),
        ensures
            final(self).wf(),
            final(self)@ == (CoordView {
                state: StateView { switch_ns: ns, ..old(self)@.state },
                ..old(self)@
            }),
    {
        self.state.set_switch_cost(ns);
    }

    /// Seed bisection: the streams start over from `with` at time `at`.
    pub fn set_reseed(&mut self, at: u64, with: u64)
        requires
            old(self).wf(),
        ensures
            final(self).wf(),
            final(self)@ == (CoordView {
                state: old(self)@.state.to_reseed(at, with),
                ..old(self)@
            }),
    {
        self.state.set_reseed(at, with);
    }

    /// End the run when the virtual clock reaches `ns` (0: never).
    pub fn set_stop_at(&mut self, ns: u64)
        requires
            old(self).wf(),
        ensures
            final(self).wf(),
            final(self)@ == (CoordView { stop_at_ns: ns, ..old(self)@ }),
    {
        self.stop_at_ns = ns;
    }

    /// The run is over at the virtual time it has reached: what still runs
    /// (the daemons, once every other process is done) is stopped instead
    /// of being killed unheard.
    pub fn stop_now(&mut self)
        requires
            old(self).wf(),
        ensures
            final(self).wf(),
            final(self)@ == (CoordView {
                stop_at_ns: if old(self)@.state.clock_ns < 1 {
                    1
                } else {
                    old(self)@.state.clock_ns
                },
                ..old(self)@
            }),
    {
        let now: u64 = self.state.clock();
        self.stop_at_ns = if now < 1 {
            1
        } else {
            now
        };
    }

    /// Whether the run has come to its stop time. The processes that run
    /// then are on record as stopped.
    pub fn stop_when_over(&mut self) -> (r: bool)
        requires
            old(self).wf(),
        ensures
            final(self).wf(),
            final(self)@ == old(self)@.stopped_when_over(),
            r == final(self).stopped,
    {
        let now: u64 = self.state.clock();
        if !self.stopped && self.stop_at_ns != 0 && now >= self.stop_at_ns {
            let n: usize = self.state.proc_count();
            let mut marks: Vec<bool> = Vec::new();
            let ghost procs = self@.state.procs;
            proof {
                self.state.lemma_wf();
            }
            let mut i: usize = 0;
            while i < n
                invariant
                    i <= n == procs.len(),
                    n <= MAX_PROCS,
                    procs == self@.state.procs,
                    marks@.len() == i,
                    forall|k: int|
                        0 <= k < i ==> #[trigger] marks@[k] == (procs[k].state != P_EXITED),
                decreases n - i,
            {
                marks.push(!self.state.has_exited(i as u32));
                i += 1;
            }
            self.cut_short = marks;
            self.stopped = true;
            assert(self.cut_short@ =~= old(self)@.stopped_when_over().cut_short);
        }
        self.stopped
    }

    /// The next host of the host table: host `i` is `10.0.0.(i + 1)`.
    pub fn add_host(&mut self, name: &[u8]) -> (r: u32)
        requires
            old(self).wf(),
            old(self)@.state.net.hosts.len() < MAX_HOSTS,
        ensures
            final(self).wf(),
            r == old(self)@.state.net.hosts.len(),
            final(self)@ == (CoordView {
                state: StateView {
                    net: old(self)@.state.net.with_host(name@),
                    ..old(self)@.state
                },
                ..old(self)@
            }),
    {
        self.state.add_host(name)
    }

    /// Register a process and its main thread before it is spawned, so
    /// process and thread ids follow launch order.
    pub fn register(&mut self, host: u32, faults: Faults, spec_index: u32) -> (r: u32)
        requires
            old(self).wf(),
            old(self)@.has_room(),
            faults.wf(),
        ensures
            final(self).wf(),
            r == old(self)@.state.procs.len(),
            final(self)@ == old(self)@.registered(host, faults, spec_index),
    {
        let pid: u32 = self.state.add_proc(host, NO_PROC);
        self.state.add_thread(pid);
        self.state.set_faults(pid, faults, spec_index);
        pid
    }

    /// Whether process `pid`, dead with `status`, gets another life. Ask
    /// once per death: a restart the full tables rule out is counted here.
    pub fn will_restart(&mut self, pid: u32, status: i32) -> (r: bool)
        requires
            old(self).wf(),
            pid < old(self)@.state.procs.len(),
        ensures
            final(self).wf(),
            r == old(self)@.restarts(pid as int, status),
            final(self)@ == old(self)@.refused(pid as int, status),
    {
        let due: bool = self.state.will_restart(pid, status);
        if !due {
            return false;
        }
        if self.state.replacement_of(pid).is_some() || (self.state.proc_count() < MAX_PROCS
            && self.state.thread_count() < MAX_THREADS) {
            return true;
        }
        self.restarts_refused = self.restarts_refused.wrapping_add(1);
        false
    }

    /// The process registered to take `pid`'s place, for us to spawn.
    pub fn replacement_of(&self, pid: u32) -> (r: Option<u32>)
        requires
            pid < self@.state.procs.len(),
        ensures
            r == (if self@.state.procs[pid as int].replaced_by != NO_PROC {
                Some(self@.state.procs[pid as int].replaced_by)
            } else {
                None
            }),
    {
        self.state.replacement_of(pid)
    }

    /// Whether some of the first `n` processes has neither attached nor, by
    /// what the launcher says in `gone`, died.
    pub fn waits_for(&self, gone: &Vec<bool>) -> (r: bool)
        requires
            gone@.len() <= self@.state.procs.len() <= MAX_PROCS,
        ensures
            r == exists|i: int|
                0 <= i < gone@.len() && !(#[trigger] gone@[i]) && self@.state.procs[i].state
                    == P_STARTING,
    {
        let mut i: usize = 0;
        while i < gone.len()
            invariant
                i <= gone@.len() <= self@.state.procs.len() <= MAX_PROCS,
                forall|k: int|
                    0 <= k < i && !(#[trigger] gone@[k]) ==> self@.state.procs[k].state
                        != P_STARTING,
            decreases gone@.len() - i,
        {
            if !gone[i] && self.state.is_starting(i as u32) {
                assert(!gone@[i as int]);
                return true;
            }
            i += 1;
        }
        false
    }

    /// Whether every guest's thread is parked. The first baton is handed out
    /// then, so that none is still finishing its start-up while another runs
    /// guest code.
    pub fn all_parked(&self) -> (r: bool)
        ensures
            r == forall|i: int|
                0 <= i < self@.state.threads.len() ==> (#[trigger] self@.state.threads[i]).parked,
    {
        let r = self.state.all_parked();
        assert(self@.state.threads == self.state@.threads);
        r
    }

    /// Hand out the first baton. Returns the thread to wake.
    pub fn start(&mut self) -> (r: Option<usize>)
        requires
            old(self).wf(),
        ensures
            final(self).wf(),
            ({
                let (state, handoff) = old(self)@.state.handed_off(None, 0);
                &&& final(self)@ == (CoordView { state, ..old(self)@ })
                &&& r == woken(Some(handoff))
            }),
    {
        match self.state.hand_off(None, 0) {
            Handoff::Switch { to, .. } => Some(to),
            _ => None,
        }
    }

    /// The run ends with this death: note when, without passing the baton.
    pub fn note_last_death(&mut self, pid: u32)
        requires
            old(self).wf(),
            pid < MAX_PROCS,
        ensures
            final(self).wf(),
            final(self)@ == old(self)@.death_noted(pid as int),
    {
        let ghost was = self.died_at@;
        while self.died_at.len() <= pid as usize
            invariant
                self.state == old(self).state,
                self.restarts_refused == old(self).restarts_refused,
                self.stop_at_ns == old(self).stop_at_ns,
                self.stopped == old(self).stopped,
                self.cut_short == old(self).cut_short,
                was == old(self).died_at@,
                pid < MAX_PROCS,
                self.died_at@ == filled(was, self.died_at@.len()),
                self.died_at@.len() == was.len() || was.len() <= self.died_at@.len() <= pid + 1,
            decreases pid + 1 - self.died_at@.len(),
        {
            let ghost now = self.died_at@;
            self.died_at.push(0);
            assert(self.died_at@ =~= filled(was, self.died_at@.len()));
        }
        let now: u64 = self.state.clock();
        if self.died_at[pid as usize] == 0 {
            self.died_at.set(
                pid as usize,
                if now < 1 {
                    1
                } else {
                    now
                },
            );
        }
    }

    /// Call after reaping `pid`.
    pub fn process_died(&mut self, pid: u32, status: i32) -> (r: Death)
        requires
            old(self).wf(),
            pid < old(self)@.state.procs.len(),
        ensures
            final(self).wf(),
            final(self)@ == old(self)@.died(pid as int, status).0,
            r.kills@ == old(self)@.death_noted(pid as int).state.died(pid as int, status).0.kills,
            r.wake == woken(old(self)@.died(pid as int, status).1),
            r.deadlock == (old(self)@.died(pid as int, status).1 == Some(Handoff::Idle)
                && final(self)@.alive() && !old(self).stopped),
    {
        proof {
            self.state.lemma_wf();
        }
        self.note_last_death(pid);
        let handoff = self.state.process_died(pid, status);
        let kills = self.state.take_kills();
        let alive: bool = self.state.any_alive();
        assert(self@.state == self.state@);
        assert(alive == (exists|i: int|
            0 <= i < self.state@.threads.len() && (#[trigger] self.state@.threads[i]).state
                != T_EXITED));
        assert(alive == self@.alive());
        let (wake, idle): (Option<usize>, bool) = match handoff {
            Some(Handoff::Switch { to, .. }) => (Some(to), false),
            Some(Handoff::Idle) => (None, true),
            _ => (None, false),
        };
        assert(idle == (handoff == Some(Handoff::Idle)));
        assert(self.stopped == old(self)@.death_noted(pid as int).stopped);
        Death { kills, wake, deadlock: idle && alive && !self.stopped }
    }

    pub fn totals(&self) -> (r: Totals)
        requires
            self.wf(),
        ensures
            r.counts == self@.state.counts(),
            r.net == self@.state.net.counts(),
            r.restarts_refused == self.restarts_refused,
            r.died_at@ == filled(self.died_at@, self@.state.procs.len()),
            r.stopped_at == (if self.stopped {
                self.stop_at_ns
            } else {
                0
            }),
            r.stopped@ == marked(self.cut_short@, self@.state.procs.len()),
    {
        let n: usize = self.state.proc_count();
        let mut died_at: Vec<u64> = Vec::new();
        let mut stopped: Vec<bool> = Vec::new();
        let mut i: usize = 0;
        while i < n
            invariant
                i <= n,
                died_at@ == filled(self.died_at@, i as nat),
                stopped@ == marked(self.cut_short@, i as nat),
            decreases n - i,
        {
            died_at.push(
                if i < self.died_at.len() {
                    self.died_at[i]
                } else {
                    0
                },
            );
            stopped.push(i < self.cut_short.len() && self.cut_short[i]);
            i += 1;
            assert(died_at@ =~= filled(self.died_at@, i as nat));
            assert(stopped@ =~= marked(self.cut_short@, i as nat));
        }
        Totals {
            counts: self.state.counts(),
            net: self.state.net_counts(),
            restarts_refused: self.restarts_refused,
            died_at,
            stopped_at: if self.stopped {
                self.stop_at_ns
            } else {
                0
            },
            stopped,
        }
    }
}

/// The thread that a handoff wakes
pub open spec fn woken(handoff: Option<Handoff>) -> Option<usize> {
    match handoff {
        Some(Handoff::Switch { to, .. }) => Some(to),
        _ => None,
    }
}

/// A process keeps the time of its first death.
pub proof fn a_death_is_dated_once(c: CoordView, pid: int, status: i32)
    requires
        0 <= pid < c.died_at.len(),
        c.died_at[pid] != 0,
    ensures
        c.died(pid, status).0.died_at == c.died_at,
{
    assert(filled(c.died_at, c.died_at.len()) =~= c.died_at);
}

/// What is foretold of a death comes true: a process restarts exactly where its
/// death registers another life, or one was registered before.
pub proof fn a_restart_is_foretold(c: CoordView, pid: int, status: i32)
    requires
        c.state.wf(),
        0 <= pid < c.state.procs.len(),
    ensures
        c.restarts(pid, status) <==> c.state.procs[pid].replaced_by != NO_PROC
            || c.state.bereft(pid, status).procs.len() == c.state.procs.len() + 1,
        c.state.procs[pid].replaced_by != NO_PROC ==> c.state.bereft(pid, status).procs.len()
            == c.state.procs.len(),
{
    crate::shared::fates::an_exit_is_final(c.state, pid, status);
}

/// A run is stopped once its stop time has come, and not before; those that
/// were still there then were cut short.
pub proof fn a_run_stops_at_its_time(c: CoordView, i: int)
    requires
        0 <= i < c.state.procs.len(),
        !c.stopped,
    ensures
        c.stopped_when_over().stopped <==> c.stop_at_ns != 0 && c.state.clock_ns >= c.stop_at_ns,
        c.stopped_when_over().stopped ==> c.stopped_when_over().cut_short[i]
            == (c.state.procs[i].state != P_EXITED),
        !c.stopped_when_over().stopped ==> c.stopped_when_over() == c,
{
}

/// A death is dated when it comes, by the run's clock, and no other death is
/// touched by it.
pub proof fn a_death_is_dated_when_it_comes(c: CoordView, pid: int, i: int)
    requires
        0 <= pid,
        0 <= i,
        pid < c.died_at.len() ==> c.died_at[pid] == 0,
    ensures
        ({
            let after = c.death_noted(pid);
            &&& pid < after.died_at.len()
            &&& c.state.clock_ns > 0 ==> after.died_at[pid] == c.state.clock_ns
            &&& c.state.clock_ns == 0 ==> after.died_at[pid] == 1
            &&& i < c.died_at.len() && i != pid ==> after.died_at[i] == c.died_at[i]
            &&& after.state == c.state
        }),
{
}

} // verus!
