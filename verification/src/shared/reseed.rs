//! Seed bisection gives a run another future: from a virtual time on, every
//! random stream starts over from another seed. Up to then the run is the
//! run it was.

use vstd::prelude::*;
use super::laws;
use super::{
    Faults, ProcRec, State, StateView, ThreadRec, FAULT_SEED, MAX_PENDING_KILLS, NO_LIMIT,
};
use crate::rng;
use crate::rng::Rng;

verus! {

impl StateView {
    /// From `at` on, streams start over from `with`.
    pub open spec fn to_reseed(self, at: u64, with: u64) -> StateView {
        StateView {
            reseed_at: if at == u64::MAX {
                at
            } else {
                (at + 1) as u64
            },
            reseed_with: with,
            ..self
        }
    }

    pub open spec fn reseed_is_due(self) -> bool {
        !self.reseeded && self.reseed_at != 0 && self.reseed_at - 1 <= self.clock_ns
    }

    /// The run's own streams have started over, if it is time.
    pub open spec fn started_over(self) -> StateView {
        if self.reseed_is_due() {
            StateView {
                rng: rng::expanded(self.reseed_with),
                fault_rng: rng::expanded(self.reseed_with ^ FAULT_SEED),
                reseeded: true,
                ..self
            }
        } else {
            self
        }
    }

    /// What the streams of the processes start over from, once it is time
    pub open spec fn new_seed(self) -> Option<u64> {
        if self.reseeded {
            Some(self.reseed_with)
        } else {
            None
        }
    }
}

impl State {
    /// Seed bisection: the streams start over from `with` at time `at`.
    pub fn set_reseed(&mut self, at: u64, with: u64)
        requires
            old(self).wf(),
        ensures
            final(self).wf(),
            final(self)@ == old(self)@.to_reseed(at, with),
    {
        self.reseed_at = if at == u64::MAX {
            at
        } else {
            at + 1
        };
        self.reseed_with = with;
    }

    /// What handing the baton on costs
    pub fn set_switch_cost(&mut self, ns: u64)
        requires
            old(self).wf(),
        ensures
            final(self).wf(),
            final(self)@ == (StateView { switch_ns: ns, ..old(self)@ }),
    {
        self.switch_ns = ns;
    }

    pub(crate) fn start_over(&mut self)
        requires
            old(self).wf(),
        ensures
            final(self).wf(),
            final(self)@ == old(self)@.started_over(),
    {
        if !self.reseeded && self.reseed_at != 0 && self.reseed_at - 1 <= self.clock_ns {
            self.rng = Rng::seed_from_u64(self.reseed_with);
            self.fault_rng = Rng::seed_from_u64(self.reseed_with ^ FAULT_SEED);
            self.reseeded = true;
        }
    }

    /// What the streams of the processes start over from, once it is time
    pub fn new_seed(&self) -> (r: Option<u64>)
        ensures
            r == self@.new_seed(),
    {
        if self.reseeded {
            Some(self.reseed_with)
        } else {
            None
        }
    }
}

impl StateView {
    /// The state of the run that is not to be reseeded
    pub open spec fn plain(self) -> StateView {
        StateView { reseed_at: 0, reseed_with: 0, ..self }
    }

    /// What is to be reseeded, and whether it was, is as before.
    spec fn same_plan(self, after: StateView) -> bool {
        &&& after.reseed_at == self.reseed_at
        &&& after.reseed_with == self.reseed_with
        &&& after.reseeded == self.reseeded
    }

    /// The step to `after` is that of the plain run to `plain`, unless it
    /// reseeds.
    spec fn steps_alike(self, after: StateView, plain: StateView) -> bool {
        &&& self.reseeded ==> after.reseeded
        &&& !after.reseeded ==> self.same_plan(after) && plain == after.plain()
    }
}

proof fn lemma_condemned(s: StateView, pid: int)
    requires
        0 <= pid < s.procs.len(),
    ensures
        s.same_plan(s.condemned(pid)),
        s.plain().condemned(pid) == s.condemned(pid).plain(),
{
    let p = s.procs[pid];
    let left = if p.faults.crashes_left == NO_LIMIT {
        NO_LIMIT
    } else {
        (p.faults.crashes_left - 1) as u32
    };
    let faults = Faults { crashes_left: left, ..p.faults };
    let a = s.with_proc(pid, ProcRec { faults, crash_at: 0, ..p });
    let b = a.retired(pid as u32);
    let c = b.with_proc(pid, ProcRec { killed: true, crash_at: 0, ..b.procs[pid] });
    let d = c.hung_up(pid as u32);
    let e = d.parent_woken(pid);
    assert(a.plain().retired(pid as u32) =~= b.plain());
    assert(c.plain().hung_up(pid as u32) =~= d.plain());
    assert(d.plain().parent_woken(pid) =~= e.plain());
    let f = e.loss_noted(pid);
    assert(e.plain().loss_noted(pid) =~= f.plain());
    lemma_restart(f, pid);
    assert(a.plain().crashed(pid) =~= a.crashed(pid).plain());
}

proof fn lemma_restart(s: StateView, victim: int)
    requires
        0 <= victim < s.procs.len(),
    ensures
        s.same_plan(s.restart_registered(victim)),
        s.plain().restart_registered(victim) == s.restart_registered(victim).plain(),
{
    assert(s.plain().restart_registered(victim) =~= s.restart_registered(victim).plain());
}

proof fn lemma_injected(s: StateView, pid: int, n: int)
    requires
        0 <= pid,
        n <= s.procs.len(),
    ensures
        s.same_plan(s.crashes_injected_from(pid, n)),
        s.plain().crashes_injected_from(pid, n) == s.crashes_injected_from(pid, n).plain(),
    decreases n - pid,
{
    if pid < n {
        if !s.procs[pid].crash_due(s.clock_ns) {
            lemma_injected(s, pid + 1, n);
        } else if s.kills.len() < MAX_PENDING_KILLS {
            lemma_condemned(s, pid);
            laws::lemma_condemned(s, pid);
            lemma_injected(s.condemned(pid), pid + 1, n);
        }
    }
}

proof fn lemma_caught_up(s: StateView)
    ensures
        s.steps_alike(s.caught_up(), s.plain().caught_up()),
        !s.caught_up().reseeded ==> !s.reseed_is_due(),
{
    let m = s.clock_moved();
    lemma_injected(m, 0, m.procs.len() as int);
    let i = m.due_crashes_injected();
    let e = i.expired();
    lemma_rung_from(e, 0, e.procs.len() as int);
    if !s.reseed_is_due() {
        assert(s.plain().clock_moved() =~= m.plain());
        assert(i.plain().expired() =~= e.plain());
    }
}

proof fn lemma_rung_from(s: StateView, pid: int, n: int)
    requires
        0 <= pid,
        n <= s.procs.len(),
    ensures
        s.same_plan(s.rung_from(pid, n)),
        s.plain().rung_from(pid, n) == s.rung_from(pid, n).plain(),
    decreases n - pid,
{
    if pid < n {
        if s.procs[pid].alarm_due(s.clock_ns) {
            assert(s.plain().rung(pid) =~= s.rung(pid).plain());
            lemma_rung_from(s.rung(pid), pid + 1, n);
        } else {
            lemma_rung_from(s, pid + 1, n);
        }
    }
}

proof fn lemma_waited(s: StateView)
    ensures
        s.steps_alike(s.waited(), s.plain().waited()),
    decreases
            MAX_PENDING_KILLS - s.kills.len(),
            s.net.in_flight,
            (if s.due_is_exact() {
                0int
            } else {
                1int
            }),
{
    if let Some(at) = s.next_event() {
        let next = s.jumped(at);
        let c = StateView {
            clock_ns: if s.clock_ns < at {
                at
            } else {
                s.clock_ns
            },
            ..s
        };
        lemma_caught_up(c);
        let q = s.plain();
        assert(q.next_event() == Some(at));
        let d = StateView { clock_ns: c.clock_ns, ..q };
        assert(d =~= c.plain());
        if next.ready() <= 0 && next.has_moved_on_from(s) && next.has_less_to_come_than(s) {
            lemma_waited(next);
        }
    }
}

proof fn lemma_picked(s: StateView)
    ensures
        s.steps_alike(s.picked().0, s.plain().picked().0),
        !s.picked().0.reseeded ==> s.plain().picked().1 == s.picked().1,
{
    lemma_caught_up(s);
    let c = s.caught_up();
    lemma_waited(c);
}

proof fn lemma_chosen(s: StateView, me: Option<int>, site: u64)
    ensures
        s.steps_alike(s.chosen(me, site).0, s.plain().chosen(me, site).0),
        !s.chosen(me, site).0.reseeded ==> s.plain().chosen(me, site).1 == s.chosen(me, site).1,
{
    lemma_picked(s);
    let (p, next) = s.picked();
    if let Some(next) = next {
        let q = p.quantum_issued().0;
        assert(p.plain().quantum_issued().0 =~= q.plain());
        if !p.reseeded {
            assert(s.plain().chosen(me, site).0 =~= s.chosen(me, site).0.plain());
        }
    }
}

/// A run that is to be reseeded is the run it was until it is: as long as
/// its streams have not started over, each hand-off of the baton is that of
/// the run without.
pub proof fn a_run_is_the_same_until_it_is_reseeded(
    s: StateView,
    from: Option<(usize, u32, u64)>,
    site: u64,
)
    requires
        !s.handed_off(from, site).0.reseeded,
    ensures
        !s.reseeded,
        s.plain().handed_off(from, site) == (
            s.handed_off(from, site).0.plain(),
            s.handed_off(from, site).1,
        ),
{
    match from {
        Some((id, state, key)) => {
            let start = StateView {
                clock_ns: s.clock_ns.wrapping_add(s.switch_ns),
                ..s.with_thread(id as int, ThreadRec { state, key, ..s.threads[id as int] })
            };
            lemma_chosen(start, Some(id as int), site);
            let plain = StateView {
                clock_ns: s.clock_ns.wrapping_add(s.switch_ns),
                ..s.plain().with_thread(
                    id as int,
                    ThreadRec { state, key, ..s.threads[id as int] },
                )
            };
            assert(plain =~= start.plain());
        },
        None => {
            lemma_chosen(s, None, site);
        },
    }
}

/// Streams start over when the clock has come to the time asked for, and
/// then they are those of a run with the new seed, whatever came before.
pub proof fn a_reseeded_run_owes_nothing_to_its_seed(s: StateView, t: StateView)
    requires
        s.reseed_is_due(),
        t.reseed_is_due(),
        s.reseed_with == t.reseed_with,
    ensures
        s.clock_moved().reseeded,
        s.clock_moved().rng == t.clock_moved().rng,
        s.clock_moved().fault_rng == t.clock_moved().fault_rng,
        s.clock_moved().rng == StateView::start(s.reseed_with, 0, 0).rng,
        s.clock_moved().fault_rng == StateView::start(s.reseed_with, 0, 0).fault_rng,
{
}

/// Streams start over at the time that was asked for and not before, and not
/// twice.
pub proof fn streams_start_over_at_their_time(s: StateView, at: u64, with: u64)
    requires
        at < u64::MAX,
    ensures
        ({
            let t = s.to_reseed(at, with);
            &&& !s.reseeded && s.clock_ns >= at ==> t.started_over().reseeded && t.started_over().rng
                == rng::expanded(with) && t.started_over().new_seed() == Some(with)
            &&& s.clock_ns < at || s.reseeded ==> t.started_over() == t
            &&& !s.reseeded && s.clock_ns < at ==> t.started_over().new_seed() is None
        }),
{
}

} // verus!
