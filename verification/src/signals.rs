//! `SIGCHLD` as a point of the schedule. The kernel sends it when a child
//! really dies, to whichever thread it likes, at a moment of real time; a
//! handler that wakes someone would make the run depend on that moment. The
//! run already knows of the death at a fixed point, so the guest's handler
//! is kept here, the kernel's delivery is dropped, and the handler runs on
//! the parent's next thread to take up the baton that does not block it.

use vstd::prelude::*;

verus! {

pub const SIG_DFL: u64 = 0;

pub const SIG_IGN: u64 = 1;

pub const SA_RESTART: i32 = 0x2;

/// The handler is called once.
pub const SA_RESETHAND: i32 = 0x4;

pub const SA_SIGINFO: i32 = 0x40;

/// A child that died: its virtual pid and its wait status
#[derive(Debug, Clone, Copy, PartialEq, Eq, Structural)]
pub struct Child {
    pub pid: i32,
    pub status: i32,
}

/// A handler to call
#[derive(Debug, Clone, Copy, PartialEq, Eq, Structural)]
pub struct Run {
    pub action: Action,
    /// What its `siginfo` says, where it asked for one
    pub info: Option<Child>,
    /// Put the kernel's own meaning of the signal back first: the handler is
    /// called once.
    pub reset: bool,
}

/// What a guest wants done about a signal
#[derive(Debug, Clone, Copy, PartialEq, Eq, Structural)]
pub struct Action {
    pub handler: u64,
    pub flags: i32,
}

impl Action {
    /// What `signal` asks for
    pub fn simple(handler: u64) -> (r: Self)
        ensures
            r == (Action { handler, flags: SA_RESTART }),
    {
        Action { handler, flags: SA_RESTART }
    }

    /// Something of the guest's would run.
    pub open spec fn calls(self) -> bool {
        self.handler != SIG_DFL && self.handler != SIG_IGN
    }
}

/// The guest's handler of `SIGCHLD`, if it has one
#[derive(Debug, Clone, Copy, PartialEq, Eq, Structural)]
pub struct Kept {
    pub guest: Option<Action>,
}

impl Kept {
    pub fn new() -> (r: Self)
        ensures
            r.guest is None,
    {
        Kept { guest: None }
    }

    /// The action a guest is told of: its own, or the kernel's where it has
    /// none
    pub fn told(&self, kernel: Action) -> (r: Action)
        ensures
            r == (match self.guest {
                Some(a) => a,
                None => kernel,
            }),
    {
        match self.guest {
            Some(a) => a,
            None => kernel,
        }
    }

    /// What to install for `new`. Where nothing of the guest's would run the
    /// kernel's meaning stands (ignoring the signal also means that children
    /// are reaped); else our own handler is installed, which asks for the
    /// details too and stays whatever the kernel delivers: its deliveries are
    /// dropped, and must not use up a handler that is called once.
    pub fn install(&self, new: &Action, ours: u64) -> (r: Action)
        ensures
            r == (if new.calls() {
                Action { handler: ours, flags: (new.flags & !SA_RESETHAND) | SA_SIGINFO }
            } else {
                *new
            }),
    {
        if new.handler != SIG_DFL && new.handler != SIG_IGN {
            Action { handler: ours, flags: (new.flags & !SA_RESETHAND) | SA_SIGINFO }
        } else {
            *new
        }
    }

    /// The kernel took what was installed for `new`, or did not.
    pub fn installed(&mut self, new: &Action, taken: bool)
        ensures
            final(self).guest == (if !taken {
                old(self).guest
            } else if new.calls() {
                Some(*new)
            } else {
                None
            }),
    {
        if taken {
            self.guest = if new.handler != SIG_DFL && new.handler != SIG_IGN {
                Some(*new)
            } else {
                None
            };
        }
    }

    /// Our handler was called on thread `here`, while our own delivery, of the
    /// death of `child`, is for `delivering_to` (0: none). What it runs: the
    /// kernel's deliveries are dropped. A handler that is called once is
    /// forgotten.
    pub fn delivered(&mut self, here: u64, delivering_to: u64, child: Child) -> (r: Option<Run>)
        ensures
            match old(self).guest {
                Some(a) => if here == delivering_to {
                    &&& r == Some(
                        Run {
                            action: a,
                            info: if a.flags & SA_SIGINFO != 0 {
                                Some(child)
                            } else {
                                None
                            },
                            reset: a.flags & SA_RESETHAND != 0,
                        },
                    )
                    &&& final(self).guest == (if a.flags & SA_RESETHAND != 0 {
                        None
                    } else {
                        Some(a)
                    })
                } else {
                    r is None && final(self).guest == Some(a)
                },
                None => r is None && final(self).guest is None,
            },
    {
        if here != delivering_to {
            return None;
        }
        match self.guest {
            Some(action) => {
                let reset: bool = action.flags & SA_RESETHAND != 0;
                if reset {
                    self.guest = None;
                }
                let info: Option<Child> = if action.flags & SA_SIGINFO != 0 {
                    Some(child)
                } else {
                    None
                };
                Some(Run { action, info, reset })
            },
            None => None,
        }
    }
}

/// Signals have numbers below this.
pub const SIGNALS: usize = 32;

/// Signals that a process or a thread was sent and has not taken yet. They
/// are taken at a fixed point of the schedule: when the receiver next takes
/// up the baton.
pub struct Pending {
    sent: Vec<bool>,
}

impl View for Pending {
    type V = Seq<bool>;

    closed spec fn view(&self) -> Seq<bool> {
        self.sent@
    }
}

/// A signal is waiting, for the process or the thread, and not blocked.
pub open spec fn due(process: Seq<bool>, thread: Seq<bool>, blocked: Seq<bool>, sig: int) -> bool {
    1 <= sig < SIGNALS && (process[sig] || thread[sig]) && !blocked[sig]
}

/// The signals below `n` that are due, in order
pub open spec fn all_due(
    process: Seq<bool>,
    thread: Seq<bool>,
    blocked: Seq<bool>,
    n: int,
) -> Seq<i32>
    decreases n,
{
    if n <= 0 {
        Seq::empty()
    } else {
        let before = all_due(process, thread, blocked, n - 1);
        if due(process, thread, blocked, n - 1) {
            before.push((n - 1) as i32)
        } else {
            before
        }
    }
}

/// What is left when what is due was taken
pub open spec fn left(
    sent: Seq<bool>,
    process: Seq<bool>,
    thread: Seq<bool>,
    blocked: Seq<bool>,
) -> Seq<bool> {
    Seq::new(sent.len(), |i: int| sent[i] && !due(process, thread, blocked, i))
}

impl Pending {
    pub open spec fn wf(self) -> bool {
        self@.len() == SIGNALS
    }

    pub fn new() -> (r: Self)
        ensures
            r.wf(),
            forall|i: int| 0 <= i < SIGNALS ==> !#[trigger] r@[i],
    {
        Pending { sent: vec![false; SIGNALS] }
    }

    /// `kill` and `pthread_kill` of a signal that has a number
    pub fn send(&mut self, sig: i32)
        requires
            old(self).wf(),
            1 <= sig < SIGNALS,
        ensures
            final(self).wf(),
            final(self)@ == old(self)@.update(sig as int, true),
    {
        self.sent.set(sig as usize, true);
    }

    /// Note whether the signal waits.
    pub(crate) fn put(&mut self, sig: usize, waits: bool)
        requires
            old(self).wf(),
            sig < SIGNALS,
        ensures
            final(self).wf(),
            final(self)@ == old(self)@.update(sig as int, waits),
    {
        self.sent.set(sig, waits);
    }

    pub fn holds(&self, sig: i32) -> (r: bool)
        requires
            self.wf(),
        ensures
            r == (0 <= sig < SIGNALS && self@[sig as int]),
    {
        0 <= sig && sig < 32 && self.sent[sig as usize]
    }
}

/// Take what is due for a thread: what its process or it was sent and it
/// does not block.
pub fn take(process: &mut Pending, thread: &mut Pending, blocked: &Vec<bool>) -> (r: Vec<i32>)
    requires
        old(process).wf(),
        old(thread).wf(),
        blocked@.len() == SIGNALS,
    ensures
        final(process).wf(),
        final(thread).wf(),
        r@ == all_due(old(process)@, old(thread)@, blocked@, SIGNALS as int),
        final(process)@ == left(old(process)@, old(process)@, old(thread)@, blocked@),
        final(thread)@ == left(old(thread)@, old(process)@, old(thread)@, blocked@),
{
    let ghost p = process@;
    let ghost t = thread@;
    let ghost b = blocked@;
    let mut out: Vec<i32> = Vec::new();
    let mut i: usize = 0;
    while i < SIGNALS
        invariant
            i <= SIGNALS,
            p.len() == SIGNALS,
            t.len() == SIGNALS,
            b.len() == SIGNALS,
            b == blocked@,
            process@.len() == SIGNALS,
            thread@.len() == SIGNALS,
            out@ == all_due(p, t, b, i as int),
            forall|k: int|
                0 <= k < i ==> #[trigger] process@[k] == (p[k] && !due(p, t, b, k)),
            forall|k: int| 0 <= k < i ==> #[trigger] thread@[k] == (t[k] && !due(p, t, b, k)),
            forall|k: int| i <= k < SIGNALS ==> #[trigger] process@[k] == p[k],
            forall|k: int| i <= k < SIGNALS ==> #[trigger] thread@[k] == t[k],
        decreases SIGNALS - i,
    {
        let here: bool = process.sent[i];
        let own: bool = thread.sent[i];
        assert(process@[i as int] == p[i as int]);
        assert(thread@[i as int] == t[i as int]);
        if i >= 1 && (here || own) && !blocked[i] {
            out.push(i as i32);
            process.sent.set(i, false);
            thread.sent.set(i, false);
        }
        i += 1;
    }
    assert(process@ =~= left(p, p, t, b));
    assert(thread@ =~= left(t, p, t, b));
    out
}

proof fn lemma_all_due(process: Seq<bool>, thread: Seq<bool>, blocked: Seq<bool>, n: int, sig: int)
    requires
        0 <= n <= SIGNALS,
    ensures
        all_due(process, thread, blocked, n).contains(sig as i32) && 0 <= sig < SIGNALS ==> sig < n
            && due(process, thread, blocked, sig),
        0 <= sig < n && due(process, thread, blocked, sig) ==> all_due(
            process,
            thread,
            blocked,
            n,
        ).contains(sig as i32),
    decreases n,
{
    if n > 0 {
        lemma_all_due(process, thread, blocked, n - 1, sig);
        let before = all_due(process, thread, blocked, n - 1);
        let all = all_due(process, thread, blocked, n);
        if all.contains(sig as i32) {
            let k = choose|k: int| 0 <= k < all.len() && all[k] == sig as i32;
            if k < before.len() {
                assert(before[k] == sig as i32);
            }
        }
        if 0 <= sig < n && due(process, thread, blocked, sig) {
            if sig == n - 1 {
                assert(all[before.len() as int] == sig as i32);
            } else {
                let k = choose|k: int| 0 <= k < before.len() && before[k] == sig as i32;
                assert(all[k] == sig as i32);
            }
        }
    }
}

/// A signal is delivered once, and not while it is blocked: one that was
/// taken was sent and is no longer waiting, and one that is blocked waits
/// on.
pub proof fn a_signal_is_delivered_once(
    process: Seq<bool>,
    thread: Seq<bool>,
    blocked: Seq<bool>,
    sig: int,
)
    requires
        process.len() == SIGNALS,
        thread.len() == SIGNALS,
        blocked.len() == SIGNALS,
        1 <= sig < SIGNALS,
    ensures
        ({
            let taken = all_due(process, thread, blocked, SIGNALS as int).contains(sig as i32);
            let p = left(process, process, thread, blocked);
            let t = left(thread, process, thread, blocked);
            &&& taken == ((process[sig] || thread[sig]) && !blocked[sig])
            &&& taken ==> !p[sig] && !t[sig]
            &&& blocked[sig] ==> p[sig] == process[sig] && t[sig] == thread[sig]
        }),
{
    lemma_all_due(process, thread, blocked, SIGNALS as int, sig);
}

} // verus!
