//! One `kevent` call of a guest, step by step: what it changes, what the
//! kernel is asked, when it parks and what it returns. The kernel calls and
//! the parking are the caller's part.

use vstd::prelude::*;
use crate::kq;
use crate::kq::{done, Change, Kevent, Kq, KqView, Registry, Route, Snapshot, Step, Told, Watch};
use crate::shared;
use crate::shared::{State, StateView, MAX_PROCS, VPID_BASE};
use crate::signals::SIGNALS;

verus! {

/// What is to be done next
#[derive(Debug, Clone, Copy, PartialEq, Eq, Structural)]
pub enum Stage {
    /// Make the whole call in the kernel: only the outside world can end
    /// this wait.
    Kernel,
    /// Ask the kernel for the receipts of its changes, one at a time.
    Receipts,
    /// Hand the kernel its changes, with no room for events, and have every
    /// I/O waiter look again: a change (a user event triggered, say) may be
    /// what a waiter on this kqueue in another thread is waiting for.
    Change,
    /// Collect the events of the virtual registrations.
    Look,
    /// Hand on what the run says of the processes and signals watched.
    Feed,
    /// Ask the kernel, without waiting, for what else it has.
    Poll,
    /// Park until some guest's act may have made something ready.
    Park,
    /// Return the events there are.
    Over,
}

pub struct Call {
    /// The kqueue, and its place in the registry
    pub fd: i32,
    pub stage: Stage,
    /// The changes that are the kernel's
    pub kernels: Vec<Kevent>,
    /// What the changes come to, for receipts
    pub steps: Vec<Step>,
    pub out: Vec<Kevent>,
    pub room: usize,
    pub timeout_ns: Option<u64>,
    /// The wait covers registrations that only the outside world can fire.
    pub outside: bool,
}

#[verifier::ext_equal]
pub struct CallView {
    pub fd: i32,
    pub stage: Stage,
    pub kernels: Seq<Kevent>,
    pub steps: Seq<Step>,
    pub out: Seq<Kevent>,
    pub room: int,
    pub timeout_ns: Option<u64>,
    pub outside: bool,
}

impl View for Call {
    type V = CallView;

    open spec fn view(&self) -> CallView {
        CallView {
            fd: self.fd,
            stage: self.stage,
            kernels: self.kernels@,
            steps: self.steps@,
            out: self.out@,
            room: self.room as int,
            timeout_ns: self.timeout_ns,
            outside: self.outside,
        }
    }
}

/// The kqueue as it is known, or as it is new
pub open spec fn kq_of(kqs: Seq<KqView>, fd: i32) -> KqView {
    match kq::kq_at(kqs, fd, 0) {
        Some(i) => kqs[i],
        None => KqView::fresh(fd),
    }
}

/// The registry with what a kqueue has become
pub open spec fn with_kq(kqs: Seq<KqView>, fd: i32, k: KqView) -> Seq<KqView> {
    match kq::kq_at(kqs, fd, 0) {
        Some(i) => kqs.update(i, k),
        None => kqs.push(k),
    }
}

/// A call has something to wait for once its changes are made.
pub open spec fn looks(room: int) -> Stage {
    if room > 0 {
        Stage::Look
    } else {
        Stage::Over
    }
}

impl CallView {
    /// A call after its changes
    pub open spec fn begun(
        k: KqView,
        fd: i32,
        changes: Seq<Change>,
        room: int,
        timeout_ns: Option<u64>,
    ) -> CallView {
        let n = changes.len() as int;
        let kernels = kq::kernels_of(changes, n);
        CallView {
            fd,
            stage: if kq::any_receipt(changes, n) {
                Stage::Receipts
            } else if !k.is_ours() {
                Stage::Kernel
            } else if kernels.len() > 0 {
                Stage::Change
            } else {
                looks(room)
            },
            kernels,
            steps: kq::steps_of(changes, n),
            out: Seq::empty(),
            room,
            timeout_ns,
            outside: k.external.len() > 0,
        }
    }

    /// With what the virtual registrations gave
    pub open spec fn looked(self, events: Seq<Kevent>) -> CallView {
        CallView {
            out: events,
            stage: if events.len() < self.room {
                Stage::Feed
            } else {
                Stage::Over
            },
            ..self
        }
    }

    /// With what the watches gave
    pub open spec fn fed(self, events: Seq<Kevent>) -> CallView {
        let out = self.out + events;
        CallView {
            out,
            stage: if out.len() < self.room {
                Stage::Poll
            } else {
                Stage::Over
            },
            ..self
        }
    }

    /// With what the kernel gave
    pub open spec fn polled(self, got: Seq<Kevent>) -> CallView {
        let out = self.out + got;
        CallView {
            out,
            stage: if out.len() > 0 || self.timeout_ns == Some(0u64) {
                Stage::Over
            } else {
                Stage::Park
            },
            ..self
        }
    }
}

fn put_back(registry: &mut Registry, at: usize, k: Kq)
    requires
        at < old(registry)@.len(),
    ensures
        final(registry)@ == old(registry)@.update(at as int, k@),
{
    let ghost was = registry@;
    registry.kqs.set(at, k);
    assert(registry@ =~= was.update(at as int, k@));
}

fn take_out(registry: &mut Registry, at: usize) -> (r: Kq)
    requires
        at < old(registry)@.len(),
    ensures
        r@ == old(registry)@[at as int],
        final(registry)@.len() == old(registry)@.len(),
        forall|i: int|
            0 <= i < old(registry)@.len() && i != at ==> final(registry)@[i]
                == old(registry)@[i],
{
    let ghost was = registry@;
    let mut k = Kq::new(0);
    let ghost blank = k@;
    std::mem::swap(&mut k, &mut registry.kqs[at]);
    assert(registry@ =~= was.update(at as int, blank));
    assert(k@ == was[at as int]);
    k
}

impl Call {
    /// Begin a call: apply its changes to what is known of the kqueue.
    pub fn begin(
        registry: &mut Registry,
        fd: i32,
        changes: &Vec<Change>,
        room: usize,
        timeout_ns: Option<u64>,
    ) -> (r: Call)
        ensures
            ({
                let k = kq_of(old(registry)@, fd).all_applied(changes@, changes@.len() as int);
                &&& final(registry)@ == with_kq(old(registry)@, fd, k)
                &&& r@ == CallView::begun(k, fd, changes@, room as int, timeout_ns)
            }),
    {
        let ghost was = registry@;
        let at: usize = registry.find_or_add(fd);
        let ghost known = registry@;
        let mut k = take_out(registry, at);
        assert(k@ == kq_of(was, fd));
        let (kernels, steps, receipts) = k.apply(changes);
        let ours: bool = k.is_ours();
        let outside: bool = k.external.len() > 0;
        let stage: Stage = match kq::route(ours, receipts) {
            Route::Receipts => Stage::Receipts,
            Route::Kernel => Stage::Kernel,
            Route::Scheduler => if kernels.len() > 0 {
                Stage::Change
            } else if room > 0 {
                Stage::Look
            } else {
                Stage::Over
            },
        };
        let ghost after = k@;
        put_back(registry, at, k);
        assert(registry@ =~= with_kq(was, fd, after));
        let r = Call {
            fd,
            stage,
            kernels,
            steps,
            out: Vec::new(),
            room,
            timeout_ns,
            outside,
        };
        assert(r@ =~= CallView::begun(after, fd, changes@, room as int, timeout_ns));
        r
    }

    /// The kernel has taken its changes.
    pub fn changed(&mut self)
        requires
            old(self).stage == Stage::Change,
        ensures
            final(self)@ == (CallView { stage: looks(old(self).room as int), ..old(self)@ }),
    {
        self.stage = if self.room > 0 {
            Stage::Look
        } else {
            Stage::Over
        };
    }

    /// The registrations whose sockets are to be looked at: their sockets
    /// and filters
    pub fn watched(&self, registry: &Registry) -> (r: Vec<(u32, i16)>)
        ensures
            match kq::kq_at(registry@, self.fd, 0) {
                Some(i) => r@.len() == registry@[i].regs.len() && (forall|j: int|
                    0 <= j < r@.len() ==> #[trigger] r@[j] == (
                        registry@[i].regs[j].sock,
                        registry@[i].regs[j].filter,
                    )),
                None => r@.len() == 0,
            },
    {
        let mut out: Vec<(u32, i16)> = Vec::new();
        match registry.find(self.fd) {
            Some(at) => {
                let k = &registry.kqs[at];
                assert(registry@[at as int] == k@);
                let mut i: usize = 0;
                while i < k.regs.len()
                    invariant
                        i <= k.regs@.len(),
                        out@.len() == i,
                        forall|j: int|
                            0 <= j < i ==> #[trigger] out@[j] == (
                                k.regs@[j].sock,
                                k.regs@[j].filter,
                            ),
                    decreases k.regs@.len() - i,
                {
                    out.push((k.regs[i].sock, k.regs[i].filter));
                    i += 1;
                }
            },
            None => {},
        }
        out
    }

    /// Collect the events of the virtual registrations. `snaps` holds what
    /// the socket of each of `watched` is ready for.
    pub fn look(&mut self, registry: &mut Registry, snaps: &Vec<Option<Snapshot>>)
        requires
            old(self).stage == Stage::Look,
            kq::kq_at(old(registry)@, old(self).fd, 0) matches Some(i) ==> snaps@.len()
                == old(registry)@[i].regs.len(),
        ensures
            match kq::kq_at(old(registry)@, old(self).fd, 0) {
                Some(i) => {
                    let k = old(registry)@[i];
                    let (events, regs) = kq::collected(
                        k.regs,
                        snaps@,
                        old(self).room as int,
                        k.regs.len() as int,
                    );
                    &&& final(self)@ == old(self)@.looked(events)
                    &&& final(registry)@ == old(registry)@.update(i, KqView { regs, ..k })
                },
                None => {
                    &&& final(self)@ == old(self)@.looked(Seq::empty())
                    &&& final(registry)@ == old(registry)@
                },
            },
    {
        let ghost was = registry@;
        match registry.find(self.fd) {
            Some(at) => {
                let mut k = take_out(registry, at);
                let events = k.collect(snaps, self.room);
                let ghost after = k@;
                put_back(registry, at, k);
                assert(registry@ =~= was.update(at as int, after));
                self.out = events;
            },
            None => {
                self.out = Vec::new();
            },
        }
        self.stage = if self.out.len() < self.room {
            Stage::Feed
        } else {
            Stage::Over
        };
    }

    /// Hand on what the run says to process `pid`, whose call it is, of the
    /// processes and signals that the kqueue watches.
    pub fn feed(&mut self, registry: &mut Registry, state: &State, pid: u32)
        requires
            old(self).stage == Stage::Feed,
            state.wf(),
            pid < state@.procs.len(),
        ensures
            match kq::kq_at(old(registry)@, old(self).fd, 0) {
                Some(i) => {
                    let k = old(registry)@[i];
                    let (events, watches) = kq::fed(
                        k.watches,
                        state@.told_of_all(pid, k.watches),
                        old(self).room - old(self).out@.len(),
                        k.watches.len() as int,
                    );
                    &&& final(self)@ == old(self)@.fed(events)
                    &&& final(registry)@ == old(registry)@.update(i, KqView { watches, ..k })
                },
                None => {
                    &&& final(self)@ == old(self)@.fed(Seq::empty())
                    &&& final(registry)@ == old(registry)@
                },
            },
    {
        let ghost was = registry@;
        let ghost before = self.out@;
        let room: usize = if self.out.len() < self.room {
            self.room - self.out.len()
        } else {
            0
        };
        match registry.find(self.fd) {
            Some(at) => {
                let mut k = take_out(registry, at);
                let ghost whole = k@;
                let told = state.told_of_all(pid, &k.watches);
                let mut events = k.feed(&told, room);
                proof {
                    lemma_no_room(
                        whole.watches,
                        told@,
                        self.room - before.len(),
                        room as int,
                        whole.watches.len() as int,
                    );
                }
                let ghost after = k@;
                put_back(registry, at, k);
                assert(registry@ =~= was.update(at as int, after));
                self.out.append(&mut events);
            },
            None => {
                assert(before + Seq::<Kevent>::empty() =~= before);
            },
        }
        self.stage = if self.out.len() < self.room {
            Stage::Poll
        } else {
            Stage::Over
        };
    }

    /// Go on with what the kernel had.
    pub fn polled(&mut self, registry: &mut Registry, got: &Vec<Kevent>)
        requires
            old(self).stage == Stage::Poll,
        ensures
            final(self)@ == old(self)@.polled(got@),
            final(registry)@ == (match kq::kq_at(old(registry)@, old(self).fd, 0) {
                Some(i) => old(registry)@.update(
                    i,
                    old(registry)@[i].kernel_fired(got@, got@.len() as int),
                ),
                None => old(registry)@,
            }),
    {
        let ghost was = registry@;
        match registry.find(self.fd) {
            Some(at) => {
                let mut k = take_out(registry, at);
                k.kernel_fired(got);
                let ghost after = k@;
                put_back(registry, at, k);
                assert(registry@ =~= was.update(at as int, after));
            },
            None => {},
        }
        let ghost before = self.out@;
        let mut i: usize = 0;
        while i < got.len()
            invariant
                i <= got@.len(),
                self@ == (CallView { out: before + got@.take(i as int), ..old(self)@ }),
            decreases got@.len() - i,
        {
            self.out.push(got[i]);
            i += 1;
            assert(self.out@ =~= before + got@.take(i as int));
        }
        assert(got@.take(i as int) =~= got@);
        self.stage = if done(self.out.len(), self.timeout_ns) {
            Stage::Over
        } else {
            Stage::Park
        };
    }

    /// The thread has been parked. `timed_out`: its deadline ended the
    /// wait, and the call returns with nothing.
    pub fn parked(&mut self, timed_out: bool)
        requires
            old(self).stage == Stage::Park,
        ensures
            final(self)@ == (CallView {
                stage: if timed_out {
                    Stage::Over
                } else {
                    Stage::Look
                },
                ..old(self)@
            }),
    {
        self.stage = if timed_out {
            Stage::Over
        } else {
            Stage::Look
        };
    }
}

/// Room below zero is none.
proof fn lemma_no_room(watches: Seq<Watch>, told: Seq<Told>, asked: int, room: int, n: int)
    requires
        room == (if asked > 0 {
            asked
        } else {
            0
        }),
    ensures
        kq::fed(watches, told, asked, n) == kq::fed(watches, told, room, n),
    decreases n,
{
    if n > 0 {
        lemma_no_room(watches, told, asked, room, n - 1);
    }
}

/// A call that watches a process that is gone, or a signal that has come since
/// it was last told of, does not park: what it watched is among its events, or
/// its events have filled its room.
pub proof fn a_watched_event_ends_the_wait(
    c: CallView,
    k: KqView,
    s: StateView,
    pid: u32,
    i: int,
    got: Seq<Kevent>,
)
    requires
        c.out.len() < c.room,
        0 <= i < k.watches.len(),
        k.watches[i].fires(s.told_of(pid, k.watches[i])),
    ensures
        ({
            let told = s.told_of_all(pid, k.watches);
            let events = kq::fed(
                k.watches,
                told,
                c.room - c.out.len(),
                k.watches.len() as int,
            ).0;
            let fed = c.fed(events);
            &&& fed.out.len() > 0
            &&& fed.stage == Stage::Over || fed.polled(got).stage == Stage::Over
        }),
{
    let told = s.told_of_all(pid, k.watches);
    kq::what_is_watched_is_told(k.watches, told, c.room - c.out.len(), i);
}

/// A signal that was sent is told of: where a watch on it is enabled and has
/// been told of all that came before, it has something to tell.
pub proof fn a_sent_signal_is_told(s: StateView, pid: u32, sig: int, w: Watch)
    requires
        s.wf(),
        pid < s.procs.len(),
        1 <= sig < SIGNALS,
        w.filter == kq::EVFILT_SIGNAL,
        w.ident == sig,
        w.enabled,
        w.told == s.sent_to(pid, sig) < u64::MAX,
    ensures
        w.fires(s.sig_queued(pid, sig).told_of(pid, w)),
        w.event(s.sig_queued(pid, sig).told_of(pid, w)).data == 1,
        w.fires(s.sig_counted(pid, sig).told_of(pid, w)),
{
}

/// A process that was killed, and one whose death was seen, is told of to all
/// that watch it and have not been told.
#[verifier::spinoff_prover]
#[verifier::rlimit(40)]
pub proof fn a_death_is_told(s: StateView, pid: u32, gone: int, status: i32, w: Watch)
    requires
        0 <= gone < s.procs.len() <= MAX_PROCS,
        w.filter == kq::EVFILT_PROC,
        w.ident == VPID_BASE + gone,
        w.enabled,
        w.told == 0,
    ensures
        w.fires(s.crashed(gone).told_of(pid, w)),
        w.fires(s.bereft(gone, status).told_of(pid, w)),
        s.bereft(gone, status).told_of(pid, w) == Told::Gone(status),
{
    shared::laws::lemma_dead(s, gone, status);
    let killed = s.crashed(gone);
    let seen = s.bereft(gone, status);
    assert(killed.told_of(pid, w) is Gone);
    assert(seen.told_of(pid, w) == Told::Gone(status));
}

/// A call parks only where it found nothing, and was ready to wait.
pub proof fn a_call_with_events_does_not_park(c: CallView, got: Seq<Kevent>)
    ensures
        c.polled(got).stage == Stage::Park ==> c.out.len() == 0 && got.len() == 0 && c.timeout_ns
            != Some(0u64),
{
}

/// How a call begins: with receipts where any is asked for; in the kernel alone
/// where only the outside world can end the wait; with the kernel's changes
/// where it has some; else with a look, where there is room for events.
pub proof fn how_a_call_begins(
    k: KqView,
    fd: i32,
    changes: Seq<Change>,
    room: int,
    timeout_ns: Option<u64>,
)
    ensures
        ({
            let c = CallView::begun(k, fd, changes, room, timeout_ns);
            let receipt = exists|i: int|
                0 <= i < changes.len() && (#[trigger] changes[i]).ev.flags & 0x40 != 0;
            let ours = k.regs.len() > 0 || k.guest_objects.len() > 0 || k.user_events.len() > 0
                || k.watches.len() > 0 || k.external.len() == 0;
            &&& receipt ==> c.stage == Stage::Receipts
            &&& !receipt && !ours ==> c.stage == Stage::Kernel
            &&& !receipt && ours && c.kernels.len() > 0 ==> c.stage == Stage::Change
            &&& !receipt && ours && c.kernels.len() == 0 && room > 0 ==> c.stage == Stage::Look
            &&& !receipt && ours && c.kernels.len() == 0 && room <= 0 ==> c.stage == Stage::Over
            &&& c.outside == (k.external.len() > 0)
            &&& c.out.len() == 0
            &&& c.timeout_ns == timeout_ns
        }),
{
    let n = changes.len() as int;
    if kq::any_receipt(changes, n) {
        let i = choose|i: int| 0 <= i < n && (#[trigger] changes[i]).ev.flags & kq::EV_RECEIPT != 0;
        assert(changes[i].ev.flags & 0x40 != 0);
    }
}

/// A call that has looked everywhere is over where it has events or was not to
/// wait, and parks otherwise; events stay in the order in which they were found.
pub proof fn a_call_parks_only_without_events(c: CallView, events: Seq<Kevent>)
    ensures
        c.looked(events).out == events,
        events.len() >= c.room <==> c.looked(events).stage == Stage::Over,
        c.fed(events).out == c.out + events,
        c.out.len() + events.len() >= c.room <==> c.fed(events).stage == Stage::Over,
        c.polled(events).out == c.out + events,
        c.polled(events).stage == Stage::Park <==> c.out.len() + events.len() == 0 && c.timeout_ns
            != Some(0u64),
        c.polled(events).stage == Stage::Park || c.polled(events).stage == Stage::Over,
{
}

} // verus!
