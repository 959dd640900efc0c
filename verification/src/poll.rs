//! `poll` and `select` over a mix of virtual sockets and kernel
//! descriptors. Readiness of a virtual socket comes from the run's network,
//! of the rest from a real `poll` with a zero timeout. If nothing is ready
//! the thread parks as an I/O waiter with the timeout as a virtual-time
//! deadline and looks again when woken.

use vstd::prelude::*;
use crate::netstate::readiness::{POLLERR, POLLHUP, POLLIN, POLLNVAL, POLLOUT, POLLPRI};
use crate::netstate::{Net, NetView, MAX_SOCKETS};

verus! {

/// How many descriptors a `select` can speak of
pub const FD_SETSIZE: usize = 1024;

/// A descriptor of a `poll`
#[derive(Debug, Clone, Copy, PartialEq, Eq, Structural)]
pub struct Pollfd {
    pub fd: i32,
    pub events: i16,
    pub revents: i16,
}

/// How many of the first `n` are for the kernel to answer
pub open spec fn asked(fds: Seq<Pollfd>, socks: Seq<Option<u32>>, n: int) -> int
    decreases n,
{
    if n <= 0 {
        0
    } else if socks[n - 1] is None && fds[n - 1].fd >= 0 {
        asked(fds, socks, n - 1) + 1
    } else {
        asked(fds, socks, n - 1)
    }
}

/// Those of the first `n` that are for the kernel to answer
pub open spec fn kernels(fds: Seq<Pollfd>, socks: Seq<Option<u32>>, n: int) -> Seq<Pollfd>
    decreases n,
{
    if n <= 0 {
        Seq::empty()
    } else if socks[n - 1] is None && fds[n - 1].fd >= 0 {
        kernels(fds, socks, n - 1).push(Pollfd { revents: 0, ..fds[n - 1] })
    } else {
        kernels(fds, socks, n - 1)
    }
}

/// The descriptors that are for the kernel to answer, in order
pub fn for_kernel(fds: &Vec<Pollfd>, socks: &Vec<Option<u32>>) -> (r: Vec<Pollfd>)
    requires
        fds@.len() == socks@.len(),
    ensures
        r@ == kernels(fds@, socks@, fds@.len() as int),
{
    let mut out: Vec<Pollfd> = Vec::new();
    let mut i: usize = 0;
    while i < fds.len()
        invariant
            i <= fds@.len() == socks@.len(),
            out@ == kernels(fds@, socks@, i as int),
        decreases fds@.len() - i,
    {
        if socks[i].is_none() && fds[i].fd >= 0 {
            out.push(Pollfd { fd: fds[i].fd, events: fds[i].events, revents: 0 });
        }
        i += 1;
    }
    out
}

/// The events of descriptor `i`
pub open spec fn seen(
    net: NetView,
    fds: Seq<Pollfd>,
    socks: Seq<Option<u32>>,
    answers: Seq<i16>,
    i: int,
) -> i16 {
    match socks[i] {
        Some(sock) => net.events(sock as int, fds[i].events),
        None => {
            let k = asked(fds, socks, i);
            if fds[i].fd >= 0 && k < answers.len() {
                answers[k]
            } else {
                0
            }
        },
    }
}

/// How many of the first `n` have events
pub open spec fn ready_count(fds: Seq<Pollfd>, n: int) -> int
    decreases n,
{
    if n <= 0 {
        0
    } else if fds[n - 1].revents != 0 {
        ready_count(fds, n - 1) + 1
    } else {
        ready_count(fds, n - 1)
    }
}

/// One pass over the set; returns how many entries have events. `answers`
/// holds what the kernel said of those it was asked.
pub fn scan(
    net: &Net,
    fds: &mut Vec<Pollfd>,
    socks: &Vec<Option<u32>>,
    answers: &Vec<i16>,
) -> (r: usize)
    requires
        net.wf(),
        old(fds)@.len() == socks@.len(),
        forall|i: int|
            0 <= i < socks@.len() ==> (#[trigger] socks@[i] matches Some(s) ==> s < MAX_SOCKETS),
    ensures
        final(fds)@ == Seq::new(
            old(fds)@.len(),
            |i: int|
                Pollfd {
                    revents: seen(net@, old(fds)@, socks@, answers@, i),
                    ..old(fds)@[i]
                },
        ),
        r == ready_count(final(fds)@, final(fds)@.len() as int),
{
    let ghost was = fds@;
    let ghost all = Seq::new(
        was.len(),
        |i: int| Pollfd { revents: seen(net@, was, socks@, answers@, i), ..was[i] },
    );
    let n: usize = fds.len();
    let mut ready: usize = 0;
    let mut next: usize = 0;
    let mut i: usize = 0;
    while i < n
        invariant
            net.wf(),
            i <= n == socks@.len(),
            n == fds@.len(),
            n == was.len(),
            all == Seq::new(
                was.len(),
                |i: int| Pollfd { revents: seen(net@, was, socks@, answers@, i), ..was[i] },
            ),
            forall|i: int|
                0 <= i < socks@.len() ==> (#[trigger] socks@[i] matches Some(s) ==> s
                    < MAX_SOCKETS),
            forall|k: int|
                0 <= k < n ==> #[trigger] fds@[k] == (if k < i {
                    all[k]
                } else {
                    was[k]
                }),
            next == asked(was, socks@, i as int),
            next <= i,
            ready == ready_count(all, i as int),
            ready <= i,
        decreases n - i,
    {
        let p: Pollfd = fds[i];
        assert(p == was[i as int]);
        assert(socks@[i as int] matches Some(s) ==> s < MAX_SOCKETS);
        let revents: i16 = match socks[i] {
            Some(sock) => net.poll_events(sock, p.events),
            None => if p.fd >= 0 {
                let answer: i16 = if next < answers.len() {
                    answers[next]
                } else {
                    0
                };
                next = next + 1;
                answer
            } else {
                0
            },
        };
        fds.set(i, Pollfd { fd: p.fd, events: p.events, revents });
        assert(fds@[i as int] == all[i as int]);
        if revents != 0 {
            ready = ready + 1;
        }
        i += 1;
    }
    assert(fds@ =~= all);
    ready
}

/// Whether the set is ours to wait on: some descriptor's readiness must
/// depend on another guest. A set of only ttys, files or the launcher's own
/// pipes is waited on for real. `guests` says which descriptors are pipes
/// or kernel sockets between guests.
pub fn between_guests(
    fds: &Vec<Pollfd>,
    socks: &Vec<Option<u32>>,
    guests: &Vec<bool>,
) -> (r: bool)
    requires
        fds@.len() == socks@.len(),
        fds@.len() == guests@.len(),
    ensures
        r == exists|i: int|
            0 <= i < fds@.len() && (#[trigger] fds@[i]).fd >= 0 && (socks@[i] is Some
                || guests@[i]),
{
    let mut i: usize = 0;
    while i < fds.len()
        invariant
            i <= fds@.len() == socks@.len(),
            fds@.len() == guests@.len(),
            forall|k: int|
                0 <= k < i ==> !((#[trigger] fds@[k]).fd >= 0 && (socks@[k] is Some
                    || guests@[k])),
        decreases fds@.len() - i,
    {
        if fds[i].fd >= 0 && (socks[i].is_some() || guests[i]) {
            assert(fds@[i as int].fd >= 0);
            return true;
        }
        i += 1;
    }
    false
}

/// What becomes of a `poll` or `select`
#[derive(Debug, Clone, Copy, PartialEq, Eq, Structural)]
pub enum Route {
    /// A sleep in disguise, of so many nanoseconds
    Sleep(u64),
    /// Nothing in it is between guests: the kernel's.
    Kernel,
    /// A wait in the scheduler, with its timeout (None: forever)
    Wait(Option<u64>),
}

/// The route of a call: `scheduled` where its thread is, `ours` where its
/// set is between guests
pub open spec fn route_of(
    scheduled: bool,
    empty: bool,
    ours: bool,
    timeout_ns: Option<u64>,
) -> Route {
    if scheduled && empty && (timeout_ns matches Some(ns) && ns > 0) {
        Route::Sleep(timeout_ns->0)
    } else if !(scheduled && ours) {
        Route::Kernel
    } else {
        Route::Wait(timeout_ns)
    }
}

pub fn route(scheduled: bool, empty: bool, ours: bool, timeout_ns: Option<u64>) -> (r: Route)
    ensures
        r == route_of(scheduled, empty, ours, timeout_ns),
{
    if scheduled && empty {
        match timeout_ns {
            Some(ns) => {
                if ns > 0 {
                    return Route::Sleep(ns);
                }
            },
            None => {},
        }
    }
    if !(scheduled && ours) {
        Route::Kernel
    } else {
        Route::Wait(timeout_ns)
    }
}

/// A `poll` timeout in nanoseconds; a negative one is forever
pub fn poll_timeout(ms: i32) -> (r: Option<u64>)
    ensures
        r == (if ms >= 0 {
            Some((ms * 1_000_000) as u64)
        } else {
            None
        }),
{
    if ms >= 0 {
        Some(ms as u64 * 1_000_000)
    } else {
        None
    }
}

/// What a `select` watches a descriptor for
pub open spec fn wanted(read: bool, write: bool, error: bool) -> i16 {
    let r = if read {
        POLLIN
    } else {
        0i16
    };
    let w = if write {
        POLLOUT
    } else {
        0i16
    };
    let e = if error {
        POLLPRI
    } else {
        0i16
    };
    r | w | e
}

/// The set of a `select`: the descriptors marked in the three sets. A set
/// that was not given is empty.
pub open spec fn select_set(
    read: Seq<bool>,
    write: Seq<bool>,
    error: Seq<bool>,
    n: int,
) -> Seq<Pollfd>
    decreases n,
{
    if n <= 0 {
        Seq::empty()
    } else {
        let before = select_set(read, write, error, n - 1);
        let events = wanted(marked(read, n - 1), marked(write, n - 1), marked(error, n - 1));
        if events != 0 {
            before.push(Pollfd { fd: (n - 1) as i32, events, revents: 0 })
        } else {
            before
        }
    }
}

pub open spec fn marked(s: Seq<bool>, i: int) -> bool {
    i < s.len() && s[i]
}

/// How many descriptors a `select` of `nfds` looks at
pub open spec fn looked_at(nfds: i32) -> int {
    if nfds < 0 {
        0
    } else if nfds < FD_SETSIZE {
        nfds as int
    } else {
        FD_SETSIZE as int
    }
}

pub fn select_fds(nfds: i32, read: &Vec<bool>, write: &Vec<bool>, error: &Vec<bool>) -> (r: Vec<
    Pollfd,
>)
    ensures
        r@ == select_set(read@, write@, error@, looked_at(nfds)),
{
    let n: usize = if nfds < 0 {
        0
    } else if (nfds as usize) < FD_SETSIZE {
        nfds as usize
    } else {
        FD_SETSIZE
    };
    let mut out: Vec<Pollfd> = Vec::new();
    let mut i: usize = 0;
    while i < n
        invariant
            i <= n <= FD_SETSIZE,
            out@ == select_set(read@, write@, error@, i as int),
        decreases n - i,
    {
        let r: i16 = if i < read.len() && read[i] {
            POLLIN
        } else {
            0
        };
        let w: i16 = if i < write.len() && write[i] {
            POLLOUT
        } else {
            0
        };
        let e: i16 = if i < error.len() && error[i] {
            POLLPRI
        } else {
            0
        };
        let events: i16 = r | w | e;
        if events != 0 {
            out.push(Pollfd { fd: i as i32, events, revents: 0 });
        }
        i += 1;
    }
    out
}

/// What a `select` found: the descriptors for each of its sets
pub struct Selected {
    pub read: Vec<i32>,
    pub write: Vec<i32>,
    pub error: Vec<i32>,
}

impl Pollfd {
    /// A hangup or an error ends a read too.
    pub open spec fn reads(self) -> bool {
        self.events & POLLIN != 0 && (self.revents & POLLIN != 0 || self.revents & (POLLHUP
            | POLLERR) != 0)
    }

    pub open spec fn writes(self) -> bool {
        self.events & POLLOUT != 0 && self.revents & POLLOUT != 0
    }

    pub open spec fn errs(self) -> bool {
        self.events & POLLPRI != 0 && self.revents & POLLPRI != 0
    }

    /// It is no descriptor.
    pub open spec fn is_bad(self) -> bool {
        self.revents & POLLNVAL != 0
    }
}

/// The descriptors of the first `n` to read from
pub open spec fn readers(fds: Seq<Pollfd>, n: int) -> Seq<i32>
    decreases n,
{
    if n <= 0 {
        Seq::empty()
    } else if fds[n - 1].reads() {
        readers(fds, n - 1).push(fds[n - 1].fd)
    } else {
        readers(fds, n - 1)
    }
}

/// The descriptors of the first `n` to write to
pub open spec fn writers(fds: Seq<Pollfd>, n: int) -> Seq<i32>
    decreases n,
{
    if n <= 0 {
        Seq::empty()
    } else if fds[n - 1].writes() {
        writers(fds, n - 1).push(fds[n - 1].fd)
    } else {
        writers(fds, n - 1)
    }
}

/// The descriptors of the first `n` with an exception
pub open spec fn errors(fds: Seq<Pollfd>, n: int) -> Seq<i32>
    decreases n,
{
    if n <= 0 {
        Seq::empty()
    } else if fds[n - 1].errs() {
        errors(fds, n - 1).push(fds[n - 1].fd)
    } else {
        errors(fds, n - 1)
    }
}

/// What a `select` found; None where something in it is no descriptor
/// (`EBADF`). Its result is how many there are in all three sets.
pub fn selected(fds: &Vec<Pollfd>) -> (r: Option<Selected>)
    ensures
        match r {
            Some(s) => {
                &&& forall|i: int| 0 <= i < fds@.len() ==> !(#[trigger] fds@[i]).is_bad()
                &&& s.read@ == readers(fds@, fds@.len() as int)
                &&& s.write@ == writers(fds@, fds@.len() as int)
                &&& s.error@ == errors(fds@, fds@.len() as int)
            },
            None => exists|i: int| 0 <= i < fds@.len() && (#[trigger] fds@[i]).is_bad(),
        },
{
    let mut read: Vec<i32> = Vec::new();
    let mut write: Vec<i32> = Vec::new();
    let mut error: Vec<i32> = Vec::new();
    let mut i: usize = 0;
    while i < fds.len()
        invariant
            i <= fds@.len(),
            forall|k: int| 0 <= k < i ==> !(#[trigger] fds@[k]).is_bad(),
            read@ == readers(fds@, i as int),
            write@ == writers(fds@, i as int),
            error@ == errors(fds@, i as int),
        decreases fds@.len() - i,
    {
        let p: Pollfd = fds[i];
        if p.revents & POLLNVAL != 0 {
            assert(fds@[i as int].is_bad());
            return None;
        }
        if p.events & POLLIN != 0 && (p.revents & POLLIN != 0 || p.revents & (POLLHUP | POLLERR)
            != 0) {
            read.push(p.fd);
        }
        if p.events & POLLOUT != 0 && p.revents & POLLOUT != 0 {
            write.push(p.fd);
        }
        if p.events & POLLPRI != 0 && p.revents & POLLPRI != 0 {
            error.push(p.fd);
        }
        i += 1;
    }
    Some(Selected { read, write, error })
}

/// What the kernel is asked about are the descriptors it knows, in order: those
/// that are none of the run's sockets and not negative, with nothing marked.
pub proof fn the_kernel_is_asked_about_its_own(
    fds: Seq<Pollfd>,
    socks: Seq<Option<u32>>,
    n: int,
    i: int,
)
    requires
        0 <= i < n <= fds.len(),
        fds.len() == socks.len(),
        socks[i] is None,
        fds[i].fd >= 0,
    ensures
        kernels(fds, socks, n).len() == asked(fds, socks, n),
        0 <= asked(fds, socks, i) < asked(fds, socks, n),
        kernels(fds, socks, n)[asked(fds, socks, i)] == (Pollfd {
            fd: fds[i].fd,
            events: fds[i].events,
            revents: 0,
        }),
    decreases n,
{
    lemma_asked(fds, socks, i);
    lemma_asked(fds, socks, n);
    if i < n - 1 {
        the_kernel_is_asked_about_its_own(fds, socks, n - 1, i);
        lemma_asked(fds, socks, n - 1);
    }
}

proof fn lemma_asked(fds: Seq<Pollfd>, socks: Seq<Option<u32>>, n: int)
    requires
        n <= fds.len(),
    ensures
        0 <= asked(fds, socks, n),
        kernels(fds, socks, n).len() == asked(fds, socks, n),
    decreases n,
{
    if n > 0 {
        lemma_asked(fds, socks, n - 1);
    }
}

/// What is seen of a descriptor is its own: of a socket of the run what the
/// network says, of one that the kernel knows the kernel's answer to the
/// question about it, of a negative one nothing.
pub proof fn each_descriptor_gets_its_own_answer(
    net: NetView,
    fds: Seq<Pollfd>,
    socks: Seq<Option<u32>>,
    answers: Seq<i16>,
    i: int,
)
    requires
        0 <= i < fds.len(),
        fds.len() == socks.len(),
        answers.len() == kernels(fds, socks, fds.len() as int).len(),
    ensures
        socks[i] is None && fds[i].fd >= 0 ==> exists|k: int|
            0 <= k < answers.len() && seen(net, fds, socks, answers, i) == #[trigger] answers[k]
                && kernels(fds, socks, fds.len() as int)[k].fd == fds[i].fd && kernels(
                fds,
                socks,
                fds.len() as int,
            )[k].events == fds[i].events,
        socks[i] is None && fds[i].fd < 0 ==> seen(net, fds, socks, answers, i) == 0,
        socks[i] matches Some(sock) ==> seen(net, fds, socks, answers, i) == net.events(
            sock as int,
            fds[i].events,
        ),
{
    if socks[i] is None && fds[i].fd >= 0 {
        the_kernel_is_asked_about_its_own(fds, socks, fds.len() as int, i);
        let k = asked(fds, socks, i);
        assert(seen(net, fds, socks, answers, i) == answers[k]);
    }
}

/// How many are ready is how many have something marked.
pub proof fn the_ready_are_counted(fds: Seq<Pollfd>)
    ensures
        ready_count(fds, fds.len() as int) == fds.filter(|f: Pollfd| f.revents != 0).len(),
{
    lemma_ready_count(fds, fds.len() as int);
    assert(fds.take(fds.len() as int) =~= fds);
}

proof fn lemma_ready_count(fds: Seq<Pollfd>, n: int)
    requires
        0 <= n <= fds.len(),
    ensures
        ready_count(fds, n) == fds.take(n).filter(|f: Pollfd| f.revents != 0).len(),
    decreases n,
{
    reveal(Seq::filter);
    if n > 0 {
        lemma_ready_count(fds, n - 1);
        assert(fds.take(n).drop_last() =~= fds.take(n - 1));
        assert(fds.take(n).last() == fds[n - 1]);
    }
}

/// A `select` asks for every descriptor it marks, for what it marks it for, and
/// for no other.
pub proof fn a_select_asks_for_what_it_marks(
    read: Seq<bool>,
    write: Seq<bool>,
    error: Seq<bool>,
    n: int,
    i: int,
)
    requires
        0 <= i < n <= i32::MAX,
    ensures
        ({
            let set = select_set(read, write, error, n);
            let r = i < read.len() && read[i];
            let w = i < write.len() && write[i];
            let e = i < error.len() && error[i];
            &&& r || w || e ==> exists|k: int|
                0 <= k < set.len() && (#[trigger] set[k]).fd == i && (set[k].events & 0x1 != 0
                    <==> r) && (set[k].events & 0x4 != 0 <==> w) && (set[k].events & 0x2 != 0
                    <==> e)
            &&& !r && !w && !e ==> forall|k: int| 0 <= k < set.len() ==> (#[trigger] set[k]).fd != i
            &&& forall|k: int| 0 <= k < set.len() ==> 0 <= (#[trigger] set[k]).fd < n
        }),
    decreases n,
{
    lemma_select_bound(read, write, error, n);
    lemma_select_bound(read, write, error, n - 1);
    let set = select_set(read, write, error, n);
    let before = select_set(read, write, error, n - 1);
    let (r, w, e) = (marked(read, i), marked(write, i), marked(error, i));
    lemma_wanted(r, w, e);
    if i < n - 1 {
        a_select_asks_for_what_it_marks(read, write, error, n - 1, i);
        if r || w || e {
            let k = choose|k: int|
                0 <= k < before.len() && (#[trigger] before[k]).fd == i && (before[k].events & 0x1
                    != 0 <==> r) && (before[k].events & 0x4 != 0 <==> w) && (before[k].events & 0x2
                    != 0 <==> e);
            assert(set[k] == before[k]);
        } else {
            assert forall|k: int| 0 <= k < set.len() implies (#[trigger] set[k]).fd != i by {
                if k < before.len() {
                    assert(set[k] == before[k]);
                }
            }
        }
    } else {
        if r || w || e {
            let k = before.len() as int;
            assert(set[k].fd == i && set[k].events == wanted(r, w, e));
        } else {
            assert(set == before);
        }
    }
}

proof fn lemma_wanted(r: bool, w: bool, e: bool)
    ensures
        wanted(r, w, e) & 0x1 != 0 <==> r,
        wanted(r, w, e) & 0x4 != 0 <==> w,
        wanted(r, w, e) & 0x2 != 0 <==> e,
        wanted(r, w, e) != 0 <==> r || w || e,
{
    assert(({
        let a = if r {
            0x1i16
        } else {
            0i16
        };
        let b = if w {
            0x4i16
        } else {
            0i16
        };
        let c = if e {
            0x2i16
        } else {
            0i16
        };
        let all = a | b | c;
        &&& (all & 0x1 != 0) == r
        &&& (all & 0x4 != 0) == w
        &&& (all & 0x2 != 0) == e
        &&& (all != 0) == (r || w || e)
    })) by (bit_vector);
}

proof fn lemma_select_bound(read: Seq<bool>, write: Seq<bool>, error: Seq<bool>, n: int)
    requires
        n <= i32::MAX,
    ensures
        forall|k: int|
            0 <= k < select_set(read, write, error, n).len() ==> 0 <= (#[trigger] select_set(
                read,
                write,
                error,
                n,
            )[k]).fd < n,
    decreases n,
{
    if n > 0 {
        lemma_select_bound(read, write, error, n - 1);
        let set = select_set(read, write, error, n);
        let before = select_set(read, write, error, n - 1);
        assert forall|k: int| 0 <= k < set.len() implies 0 <= (#[trigger] set[k]).fd < n by {
            if k < before.len() {
                assert(set[k] == before[k]);
            }
        }
    }
}

proof fn lemma_marks(fds: Seq<Pollfd>, n: int, i: int)
    requires
        0 <= i < n <= fds.len(),
    ensures
        fds[i].reads() ==> readers(fds, n).contains(fds[i].fd),
        fds[i].writes() ==> writers(fds, n).contains(fds[i].fd),
        fds[i].errs() ==> errors(fds, n).contains(fds[i].fd),
    decreases n,
{
    let fd = fds[i].fd;
    let r = readers(fds, n);
    let w = writers(fds, n);
    let e = errors(fds, n);
    if i < n - 1 {
        lemma_marks(fds, n - 1, i);
        let r0 = readers(fds, n - 1);
        let w0 = writers(fds, n - 1);
        let e0 = errors(fds, n - 1);
        if r0.contains(fd) {
            let k = choose|k: int| 0 <= k < r0.len() && r0[k] == fd;
            assert(r[k] == fd);
        }
        if w0.contains(fd) {
            let k = choose|k: int| 0 <= k < w0.len() && w0[k] == fd;
            assert(w[k] == fd);
        }
        if e0.contains(fd) {
            let k = choose|k: int| 0 <= k < e0.len() && e0[k] == fd;
            assert(e[k] == fd);
        }
    } else {
        if fds[i].reads() {
            assert(r[r.len() - 1] == fd);
        }
        if fds[i].writes() {
            assert(w[w.len() - 1] == fd);
        }
        if fds[i].errs() {
            assert(e[e.len() - 1] == fd);
        }
    }
}

/// What a `select` marks of a descriptor it asked about: for reading where there
/// is something to read, the other end is gone or there is an error, for writing
/// where there is room, and as exceptional what is urgent.
pub proof fn a_select_marks_what_it_found(fds: Seq<Pollfd>, i: int)
    requires
        0 <= i < fds.len(),
    ensures
        ({
            let f = fds[i];
            let n = fds.len() as int;
            let told = f.revents & 0x1 != 0 || f.revents & 0x10 != 0 || f.revents & 0x8 != 0;
            &&& f.events & 0x1 != 0 && told ==> readers(fds, n).contains(f.fd)
            &&& f.events & 0x4 != 0 && f.revents & 0x4 != 0 ==> writers(fds, n).contains(f.fd)
            &&& f.events & 0x2 != 0 && f.revents & 0x2 != 0 ==> errors(fds, n).contains(f.fd)
            &&& f.reads() <==> f.events & 0x1 != 0 && told
            &&& f.writes() <==> f.events & 0x4 != 0 && f.revents & 0x4 != 0
            &&& f.errs() <==> f.events & 0x2 != 0 && f.revents & 0x2 != 0
        }),
{
    let x = fds[i].revents;
    assert(x & (0x10i16 | 0x8i16) != 0 <==> x & 0x10 != 0 || x & 0x8 != 0) by (bit_vector);
    lemma_marks(fds, fds.len() as int, i);
}

/// Which way a wait goes: a wait for nothing but time is a sleep, one between
/// guests is the scheduler's, and any other is the kernel's.
pub proof fn a_wait_goes_where_it_can_end(
    scheduled: bool,
    empty: bool,
    ours: bool,
    timeout_ns: Option<u64>,
)
    ensures
        ({
            let r = route_of(scheduled, empty, ours, timeout_ns);
            let sleeps = scheduled && empty && timeout_ns is Some && timeout_ns.unwrap() > 0;
            &&& !scheduled ==> r == Route::Kernel
            &&& sleeps ==> r == Route::Sleep(timeout_ns.unwrap())
            &&& !sleeps && scheduled && ours ==> r == Route::Wait(timeout_ns)
            &&& !sleeps && !ours ==> r == Route::Kernel
        }),
{
}

} // verus!
