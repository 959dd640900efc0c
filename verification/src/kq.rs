//! `kevent` for kqueues that watch virtual sockets. The kernel cannot see
//! those, so `EVFILT_READ` and `EVFILT_WRITE` registrations on them are
//! kept here, per kqueue, and their events are made from socket state.
//! Every other registration stays on the real kqueue, which is polled with
//! a zero timeout alongside: the wait itself is the scheduler's, in virtual
//! time, because what ends it (socket traffic, a user event another thread
//! triggers) comes from scheduled threads. A watch on a guest's pid or on a
//! signal is the run's too, fed by the process table and the signal counts:
//! the kernel knows no virtual pid, and a guest's signals come at points of
//! the schedule. Only a kqueue whose every
//! registration belongs to the outside world waits in the kernel.
//! Level-triggered, `EV_CLEAR`, `EV_ONESHOT` and `EV_DISPATCH`
//! registrations are modelled, and `EV_RECEIPT`.
//!
//! A kqueue is not inherited by `fork`, so the child starts with an empty
//! registry.

use vstd::prelude::*;
use crate::netstate::readiness::Readiness;
use crate::shared::VPID_BASE;

pub mod laws;

verus! {

pub const EVFILT_READ: i16 = -1;

pub const EVFILT_WRITE: i16 = -2;

pub const EVFILT_VNODE: i16 = -4;

pub const EVFILT_PROC: i16 = -5;

pub const EVFILT_SIGNAL: i16 = -6;

pub const EVFILT_USER: i16 = -10;

/// A process has ended.
pub const NOTE_EXIT: u32 = 0x8000_0000;

/// Its wait status is asked for, or given.
pub const NOTE_EXITSTATUS: u32 = 0x0400_0000;

pub const EV_ADD: u16 = 0x1;

pub const EV_DELETE: u16 = 0x2;

pub const EV_ENABLE: u16 = 0x4;

pub const EV_DISABLE: u16 = 0x8;

pub const EV_ONESHOT: u16 = 0x10;

pub const EV_CLEAR: u16 = 0x20;

pub const EV_RECEIPT: u16 = 0x40;

pub const EV_DISPATCH: u16 = 0x80;

pub const EV_ERROR: u16 = 0x4000;

pub const EV_EOF: u16 = 0x8000;

/// The flags of a registration that decide how it fires: `EV_CLEAR`,
/// `EV_ONESHOT` and `EV_DISPATCH`
pub const FIRING: u16 = 0xb0;

/// A change, or an event
#[derive(Debug, Clone, Copy, PartialEq, Eq, Structural)]
pub struct Kevent {
    pub ident: u64,
    pub filter: i16,
    pub flags: u16,
    pub fflags: u32,
    pub data: i64,
    pub udata: u64,
}

/// A registration on a virtual socket
#[derive(Debug, Clone, Copy, PartialEq, Eq, Structural)]
pub struct Reg {
    pub fd: i32,
    pub sock: u32,
    pub filter: i16,
    pub flags: u16,
    pub udata: u64,
    pub enabled: bool,
    /// The socket's event counter when this last fired, for `EV_CLEAR`
    pub seen: Option<u64>,
}

/// A watch on a guest's pid (`EVFILT_PROC`) or on a signal (`EVFILT_SIGNAL`).
/// Both filters are edge-triggered by nature: a process ends once, and a
/// signal is told of as often as it came since the last time.
#[derive(Debug, Clone, Copy, PartialEq, Eq, Structural)]
pub struct Watch {
    pub ident: u64,
    pub filter: i16,
    pub flags: u16,
    pub fflags: u32,
    pub udata: u64,
    pub enabled: bool,
    /// How often the signal had come when this was last told of; of a
    /// process, 1 once its end was
    pub told: u64,
}

/// What the run says of what is watched
#[derive(Debug, Clone, Copy, PartialEq, Eq, Structural)]
pub enum Told {
    /// The process lives, or there is none.
    Living,
    /// It is gone, with this wait status.
    Gone(i32),
    /// The signal has come so often.
    Count(u64),
}

pub struct Kq {
    /// Every descriptor of this kqueue: a runtime may register through one
    /// duplicate and wait on another
    pub fds: Vec<i32>,
    pub regs: Vec<Reg>,
    /// Pipes and kernel sockets between guests registered on the real
    /// kqueue: their readiness also only changes when a guest acts
    pub guest_objects: Vec<i32>,
    /// Registrations only the world outside the run can fire (a descriptor
    /// that is no guest's, a kernel timer), as (ident, filter)
    pub external: Vec<(u64, i16)>,
    /// Idents of the user events registered: a scheduled thread's `kevent`
    /// triggers them, so a wait on them is the scheduler's
    pub user_events: Vec<u64>,
    /// Watches on guests' pids, which the run's process table tells of, and on
    /// signals, which the run counts
    pub watches: Vec<Watch>,
}

#[verifier::ext_equal]
pub struct KqView {
    pub fds: Seq<i32>,
    pub regs: Seq<Reg>,
    pub guest_objects: Seq<i32>,
    pub external: Seq<(u64, i16)>,
    pub user_events: Seq<u64>,
    pub watches: Seq<Watch>,
}

impl View for Kq {
    type V = KqView;

    open spec fn view(&self) -> KqView {
        KqView {
            fds: self.fds@,
            regs: self.regs@,
            guest_objects: self.guest_objects@,
            external: self.external@,
            user_events: self.user_events@,
            watches: self.watches@,
        }
    }
}

/// All but one descriptor
pub open spec fn other_fds(s: Seq<i32>, fd: i32) -> Seq<i32>
    decreases s.len(),
{
    if s.len() == 0 {
        Seq::empty()
    } else {
        let before = other_fds(s.drop_last(), fd);
        if s.last() != fd {
            before.push(s.last())
        } else {
            before
        }
    }
}

/// All but one ident
pub open spec fn other_idents(s: Seq<u64>, ident: u64) -> Seq<u64>
    decreases s.len(),
{
    if s.len() == 0 {
        Seq::empty()
    } else {
        let before = other_idents(s.drop_last(), ident);
        if s.last() != ident {
            before.push(s.last())
        } else {
            before
        }
    }
}

/// All but one registration
pub open spec fn other_keys(s: Seq<(u64, i16)>, key: (u64, i16)) -> Seq<(u64, i16)>
    decreases s.len(),
{
    if s.len() == 0 {
        Seq::empty()
    } else {
        let before = other_keys(s.drop_last(), key);
        if s.last() != key {
            before.push(s.last())
        } else {
            before
        }
    }
}

/// Only these filters' idents are descriptors; a timer's or a process's may
/// equal one by chance.
pub open spec fn of_a_descriptor(filter: i16) -> bool {
    filter == EVFILT_READ || filter == EVFILT_WRITE || filter == EVFILT_VNODE
}

/// All registrations but those on a descriptor
pub open spec fn not_on(s: Seq<(u64, i16)>, fd: i32) -> Seq<(u64, i16)>
    decreases s.len(),
{
    if s.len() == 0 {
        Seq::empty()
    } else {
        let before = not_on(s.drop_last(), fd);
        if s.last().0 != fd as u64 || !of_a_descriptor(s.last().1) {
            before.push(s.last())
        } else {
            before
        }
    }
}

/// All virtual registrations but those on a descriptor
pub open spec fn regs_not_on(s: Seq<Reg>, fd: i32) -> Seq<Reg>
    decreases s.len(),
{
    if s.len() == 0 {
        Seq::empty()
    } else {
        let before = regs_not_on(s.drop_last(), fd);
        if s.last().fd != fd {
            before.push(s.last())
        } else {
            before
        }
    }
}

fn drop_fd(v: &Vec<i32>, fd: i32) -> (r: Vec<i32>)
    ensures
        r@ == other_fds(v@, fd),
{
    let mut out: Vec<i32> = Vec::new();
    let mut i: usize = 0;
    while i < v.len()
        invariant
            i <= v@.len(),
            out@ == other_fds(v@.take(i as int), fd),
        decreases v@.len() - i,
    {
        assert(v@.take(i + 1).drop_last() =~= v@.take(i as int));
        if v[i] != fd {
            out.push(v[i]);
        }
        i += 1;
    }
    assert(v@.take(i as int) =~= v@);
    out
}

fn drop_ident(v: &Vec<u64>, ident: u64) -> (r: Vec<u64>)
    ensures
        r@ == other_idents(v@, ident),
{
    let mut out: Vec<u64> = Vec::new();
    let mut i: usize = 0;
    while i < v.len()
        invariant
            i <= v@.len(),
            out@ == other_idents(v@.take(i as int), ident),
        decreases v@.len() - i,
    {
        assert(v@.take(i + 1).drop_last() =~= v@.take(i as int));
        if v[i] != ident {
            out.push(v[i]);
        }
        i += 1;
    }
    assert(v@.take(i as int) =~= v@);
    out
}

fn drop_key(v: &Vec<(u64, i16)>, key: (u64, i16)) -> (r: Vec<(u64, i16)>)
    ensures
        r@ == other_keys(v@, key),
{
    let mut out: Vec<(u64, i16)> = Vec::new();
    let mut i: usize = 0;
    while i < v.len()
        invariant
            i <= v@.len(),
            out@ == other_keys(v@.take(i as int), key),
        decreases v@.len() - i,
    {
        assert(v@.take(i + 1).drop_last() =~= v@.take(i as int));
        if v[i].0 != key.0 || v[i].1 != key.1 {
            out.push(v[i]);
        }
        i += 1;
    }
    assert(v@.take(i as int) =~= v@);
    out
}

fn drop_on(v: &Vec<(u64, i16)>, fd: i32) -> (r: Vec<(u64, i16)>)
    ensures
        r@ == not_on(v@, fd),
{
    let mut out: Vec<(u64, i16)> = Vec::new();
    let mut i: usize = 0;
    while i < v.len()
        invariant
            i <= v@.len(),
            out@ == not_on(v@.take(i as int), fd),
        decreases v@.len() - i,
    {
        assert(v@.take(i + 1).drop_last() =~= v@.take(i as int));
        let f: i16 = v[i].1;
        if v[i].0 != fd as u64 || !(f == EVFILT_READ || f == EVFILT_WRITE || f == EVFILT_VNODE) {
            out.push(v[i]);
        }
        i += 1;
    }
    assert(v@.take(i as int) =~= v@);
    out
}

fn drop_regs(v: &Vec<Reg>, fd: i32) -> (r: Vec<Reg>)
    ensures
        r@ == regs_not_on(v@, fd),
{
    let mut out: Vec<Reg> = Vec::new();
    let mut i: usize = 0;
    while i < v.len()
        invariant
            i <= v@.len(),
            out@ == regs_not_on(v@.take(i as int), fd),
        decreases v@.len() - i,
    {
        assert(v@.take(i + 1).drop_last() =~= v@.take(i as int));
        if v[i].fd != fd {
            out.push(v[i]);
        }
        i += 1;
    }
    assert(v@.take(i as int) =~= v@);
    out
}

fn has_fd(v: &Vec<i32>, fd: i32) -> (r: bool)
    ensures
        r == v@.contains(fd),
{
    let mut i: usize = 0;
    while i < v.len()
        invariant
            i <= v@.len(),
            forall|k: int| 0 <= k < i ==> v@[k] != fd,
        decreases v@.len() - i,
    {
        if v[i] == fd {
            assert(v@[i as int] == fd);
            return true;
        }
        i += 1;
    }
    false
}

/// The first registration, from number `i` on, of a descriptor and filter
pub open spec fn reg_at(regs: Seq<Reg>, fd: i32, filter: i16, i: int) -> Option<int>
    decreases regs.len() - i,
{
    if i < 0 || i >= regs.len() {
        None
    } else if regs[i].fd == fd && regs[i].filter == filter {
        Some(i)
    } else {
        reg_at(regs, fd, filter, i + 1)
    }
}

impl Reg {
    /// A registration as it is added
    pub open spec fn fresh(fd: i32, sock: u32, filter: i16) -> Reg {
        Reg { fd, sock, filter, flags: 0, udata: 0, enabled: true, seen: None }
    }

    /// With a change applied to it
    pub open spec fn changed(self, ev: Kevent, sock: u32) -> Reg {
        // Re-adding re-arms an edge-triggered registration
        let added = if ev.flags & EV_ADD != 0 {
            Reg { flags: ev.flags & FIRING, udata: ev.udata, sock, seen: None, ..self }
        } else {
            self
        };
        // The kernel looks again on enable: unread data fires once more
        let enabled = if ev.flags & EV_ENABLE != 0 {
            Reg {
                enabled: true,
                seen: if added.flags & EV_DISPATCH != 0 {
                    None
                } else {
                    added.seen
                },
                ..added
            }
        } else {
            added
        };
        if ev.flags & EV_DISABLE != 0 {
            Reg { enabled: false, ..enabled }
        } else {
            enabled
        }
    }

    fn change(self, ev: Kevent, sock: u32) -> (r: Reg)
        ensures
            r == self.changed(ev, sock),
    {
        let mut reg: Reg = self;
        if ev.flags & EV_ADD != 0 {
            reg.flags = ev.flags & FIRING;
            reg.udata = ev.udata;
            reg.sock = sock;
            reg.seen = None;
        }
        if ev.flags & EV_ENABLE != 0 {
            reg.enabled = true;
            if reg.flags & EV_DISPATCH != 0 {
                reg.seen = None;
            }
        }
        if ev.flags & EV_DISABLE != 0 {
            reg.enabled = false;
        }
        reg
    }

    /// It fires, at this count of the socket's events.
    pub open spec fn fires(self, now: Readiness, events: u64) -> bool {
        self.enabled && now.ready && !(self.flags & EV_CLEAR != 0 && self.seen == Some(events))
    }

    /// The event it gives
    pub open spec fn event(self, now: Readiness) -> Kevent {
        let flags = self.flags | EV_ADD;
        Kevent {
            ident: self.fd as u64,
            filter: self.filter,
            flags: if now.eof {
                flags | EV_EOF
            } else {
                flags
            },
            fflags: 0,
            data: now.data,
            udata: self.udata,
        }
    }

    /// It has fired: a one-shot is gone, and one that is delivered once is
    /// silent until the guest enables it again.
    pub open spec fn fired(self, events: u64) -> Option<Reg> {
        if self.flags & EV_ONESHOT != 0 {
            None
        } else if self.flags & EV_DISPATCH != 0 {
            Some(Reg { seen: Some(events), enabled: false, ..self })
        } else {
            Some(Reg { seen: Some(events), ..self })
        }
    }
}

/// What a socket is ready for, and how often it became so
#[derive(Debug, Clone, Copy, PartialEq, Eq, Structural)]
pub struct Snapshot {
    pub now: Readiness,
    pub events: u64,
}

/// Of the first `n` registrations: the events they have, up to `room`, and
/// what is left of the registrations
pub open spec fn collected(
    regs: Seq<Reg>,
    snaps: Seq<Option<Snapshot>>,
    room: int,
    n: int,
) -> (Seq<Kevent>, Seq<Reg>)
    decreases n,
{
    if n <= 0 {
        (Seq::empty(), Seq::empty())
    } else {
        let (events, kept) = collected(regs, snaps, room, n - 1);
        let r = regs[n - 1];
        match snaps[n - 1] {
            Some(snap) => if events.len() < room && r.fires(snap.now, snap.events) {
                (
                    events.push(r.event(snap.now)),
                    match r.fired(snap.events) {
                        Some(after) => kept.push(after),
                        None => kept,
                    },
                )
            } else {
                (events, kept.push(r))
            },
            None => (events, kept.push(r)),
        }
    }
}

/// The first watch, from number `i` on, of an ident and filter
pub open spec fn watch_at(watches: Seq<Watch>, ident: u64, filter: i16, i: int) -> Option<int>
    decreases watches.len() - i,
{
    if i < 0 || i >= watches.len() {
        None
    } else if watches[i].ident == ident && watches[i].filter == filter {
        Some(i)
    } else {
        watch_at(watches, ident, filter, i + 1)
    }
}

impl Watch {
    /// A watch as it is added: of a signal only what comes from now on counts
    pub open spec fn fresh(c: Change) -> Watch {
        Watch {
            ident: c.ev.ident,
            filter: c.ev.filter,
            flags: 0,
            fflags: 0,
            udata: 0,
            enabled: true,
            told: if c.ev.filter == EVFILT_SIGNAL {
                c.count
            } else {
                0
            },
        }
    }

    /// With the end of its process not told of
    pub open spec fn armed(self) -> Watch {
        if self.filter == EVFILT_SIGNAL {
            self
        } else {
            Watch { told: 0, ..self }
        }
    }

    /// With a change applied to it
    pub open spec fn changed(self, ev: Kevent) -> Watch {
        let added = if ev.flags & EV_ADD != 0 {
            (Watch { flags: ev.flags & FIRING, fflags: ev.fflags, udata: ev.udata, ..self }).armed()
        } else {
            self
        };
        let enabled = if ev.flags & EV_ENABLE != 0 {
            let looks = if added.flags & EV_DISPATCH != 0 {
                added.armed()
            } else {
                added
            };
            Watch { enabled: true, ..looks }
        } else {
            added
        };
        if ev.flags & EV_DISABLE != 0 {
            Watch { enabled: false, ..enabled }
        } else {
            enabled
        }
    }

    fn rearm(&mut self)
        ensures
            *final(self) == old(self).armed(),
    {
        if self.filter != EVFILT_SIGNAL {
            self.told = 0;
        }
    }

    fn change(self, ev: Kevent) -> (r: Watch)
        ensures
            r == self.changed(ev),
    {
        let mut w: Watch = self;
        if ev.flags & EV_ADD != 0 {
            w.flags = ev.flags & FIRING;
            w.fflags = ev.fflags;
            w.udata = ev.udata;
            w.rearm();
        }
        if ev.flags & EV_ENABLE != 0 {
            if w.flags & EV_DISPATCH != 0 {
                w.rearm();
            }
            w.enabled = true;
        }
        if ev.flags & EV_DISABLE != 0 {
            w.enabled = false;
        }
        w
    }

    /// There is something new to tell.
    pub open spec fn fires(self, t: Told) -> bool {
        self.enabled && match t {
            Told::Living => false,
            Told::Gone(_) => self.told == 0,
            Told::Count(n) => n > self.told,
        }
    }

    /// The event it gives: the end of the process, with its status where that
    /// was asked for, or how often the signal came since it was last told of
    pub open spec fn event(self, t: Told) -> Kevent {
        let flags = self.flags | EV_ADD;
        let plain = Kevent {
            ident: self.ident,
            filter: self.filter,
            flags,
            fflags: 0,
            data: 0,
            udata: self.udata,
        };
        match t {
            Told::Living => plain,
            Told::Gone(status) => Kevent {
                flags: flags | EV_EOF,
                fflags: NOTE_EXIT | (self.fflags & NOTE_EXITSTATUS),
                data: if self.fflags & NOTE_EXITSTATUS != 0 {
                    status as i64
                } else {
                    0
                },
                ..plain
            },
            Told::Count(n) => Kevent {
                data: if n - self.told <= i64::MAX {
                    (n - self.told) as i64
                } else {
                    i64::MAX
                },
                ..plain
            },
        }
    }

    /// It has fired: a one-shot is gone, and one that is delivered once is
    /// silent until the guest enables it again.
    pub open spec fn fired(self, t: Told) -> Option<Watch> {
        let told = match t {
            Told::Living => self.told,
            Told::Gone(_) => 1,
            Told::Count(n) => n,
        };
        if self.flags & EV_ONESHOT != 0 {
            None
        } else if self.flags & EV_DISPATCH != 0 {
            Some(Watch { told, enabled: false, ..self })
        } else {
            Some(Watch { told, ..self })
        }
    }

    /// The event it gives now, if there is something new to tell, and how often
    /// the signal has come, or 1 of a process
    fn tell(&self, t: Told) -> (r: Option<(Kevent, u64)>)
        ensures
            match r {
                Some((ev, told)) => self.fires(t) && ev == self.event(t) && told == (match t {
                    Told::Living => self.told,
                    Told::Gone(_) => 1,
                    Told::Count(n) => n,
                }),
                None => !self.fires(t),
            },
    {
        if !self.enabled {
            return None;
        }
        let mut ev = Kevent {
            ident: self.ident,
            filter: self.filter,
            flags: self.flags | EV_ADD,
            fflags: 0,
            data: 0,
            udata: self.udata,
        };
        match t {
            Told::Living => None,
            Told::Gone(status) => {
                if self.told != 0 {
                    return None;
                }
                ev.flags = ev.flags | EV_EOF;
                ev.fflags = NOTE_EXIT | (self.fflags & NOTE_EXITSTATUS);
                if self.fflags & NOTE_EXITSTATUS != 0 {
                    ev.data = status as i64;
                }
                Some((ev, 1))
            },
            Told::Count(n) => {
                if n <= self.told {
                    return None;
                }
                let new: u64 = n - self.told;
                ev.data = if new <= i64::MAX as u64 {
                    new as i64
                } else {
                    i64::MAX
                };
                Some((ev, n))
            },
        }
    }
}

/// Of the first `n` watches: the events they have, up to `room`, and what is
/// left of the watches
pub open spec fn fed(watches: Seq<Watch>, told: Seq<Told>, room: int, n: int) -> (
    Seq<Kevent>,
    Seq<Watch>,
)
    decreases n,
{
    if n <= 0 {
        (Seq::empty(), Seq::empty())
    } else {
        let (events, kept) = fed(watches, told, room, n - 1);
        let w = watches[n - 1];
        let t = told[n - 1];
        if events.len() < room && w.fires(t) {
            (
                events.push(w.event(t)),
                match w.fired(t) {
                    Some(after) => kept.push(after),
                    None => kept,
                },
            )
        } else {
            (events, kept.push(w))
        }
    }
}

/// A change, and what is known of what it is on
#[derive(Debug, Clone, Copy, PartialEq, Eq, Structural)]
pub struct Change {
    pub ev: Kevent,
    /// The virtual socket behind the ident, taken as a descriptor
    pub sock: Option<u32>,
    /// The ident, taken as a descriptor, is a pipe or kernel socket whose
    /// other end is a guest's.
    pub guest_object: bool,
    /// How often the process was sent the signal that the ident is, of a watch
    /// on one
    pub count: u64,
}

impl Change {
    /// Whether the kernel does not learn of it
    pub open spec fn is_ours(self) -> bool {
        (self.sock is Some && self.ev.is_io()) || self.ev.is_watch()
    }
}

/// A change of a call that wants receipts
#[derive(Debug, Clone, Copy, PartialEq, Eq, Structural)]
pub enum Step {
    /// A virtual registration's, with the receipt the kernel would give
    Ours(Kevent),
    Kernels(Kevent),
}

impl Kevent {
    /// It is about a descriptor's readiness.
    pub open spec fn is_io(self) -> bool {
        self.filter == EVFILT_READ || self.filter == EVFILT_WRITE
    }

    /// Whether it is a watch the run answers: on a guest's pid, or on a
    /// signal
    pub open spec fn is_watch(self) -> bool {
        (self.filter == EVFILT_PROC && self.ident >= VPID_BASE) || self.filter == EVFILT_SIGNAL
    }

    /// The receipt of a change that was made
    pub open spec fn receipt(self) -> Kevent {
        Kevent { flags: self.flags | EV_ERROR, data: 0, ..self }
    }
}

impl KqView {
    pub open spec fn fresh(fd: i32) -> KqView {
        KqView {
            fds: seq![fd],
            regs: Seq::empty(),
            guest_objects: Seq::empty(),
            external: Seq::empty(),
            user_events: Seq::empty(),
            watches: Seq::empty(),
        }
    }

    /// With a change on a virtual socket
    pub open spec fn changed(self, ev: Kevent, sock: u32) -> KqView {
        let fd = ev.ident as i32;
        match reg_at(self.regs, fd, ev.filter, 0) {
            Some(at) => if ev.flags & EV_DELETE != 0 {
                KqView { regs: self.regs.remove(at), ..self }
            } else {
                KqView { regs: self.regs.update(at, self.regs[at].changed(ev, sock)), ..self }
            },
            None => if ev.flags & EV_DELETE == 0 && ev.flags & EV_ADD != 0 {
                KqView {
                    regs: self.regs.push(Reg::fresh(fd, sock, ev.filter).changed(ev, sock)),
                    ..self
                }
            } else {
                self
            },
        }
    }

    /// With a change of a watch on a guest's pid or on a signal
    pub open spec fn watching(self, c: Change) -> KqView {
        let ev = c.ev;
        match watch_at(self.watches, ev.ident, ev.filter, 0) {
            Some(at) => if ev.flags & EV_DELETE != 0 {
                KqView { watches: self.watches.remove(at), ..self }
            } else {
                KqView { watches: self.watches.update(at, self.watches[at].changed(ev)), ..self }
            },
            None => if ev.flags & EV_DELETE == 0 && ev.flags & EV_ADD != 0 {
                KqView { watches: self.watches.push(Watch::fresh(c).changed(ev)), ..self }
            } else {
                self
            },
        }
    }

    /// With a change that is the kernel's
    pub open spec fn passed(self, c: Change) -> KqView {
        let fd = c.ev.ident as i32;
        let deleted = c.ev.flags & EV_DELETE != 0;
        let guests = c.ev.is_io() && c.guest_object;
        let k = if guests && !self.guest_objects.contains(fd) {
            KqView { guest_objects: self.guest_objects.push(fd), ..self }
        } else {
            self
        };
        if c.ev.filter == EVFILT_USER {
            let left = other_idents(k.user_events, c.ev.ident);
            KqView {
                user_events: if deleted {
                    left
                } else {
                    left.push(c.ev.ident)
                },
                ..k
            }
        } else if !guests {
            let key = (c.ev.ident, c.ev.filter);
            let left = other_keys(k.external, key);
            KqView {
                external: if deleted {
                    left
                } else {
                    left.push(key)
                },
                ..k
            }
        } else {
            k
        }
    }

    /// With a change
    pub open spec fn applied(self, c: Change) -> KqView {
        if c.ev.is_watch() {
            self.watching(c)
        } else {
            match c.sock {
                Some(sock) => if c.ev.is_io() {
                    self.changed(c.ev, sock)
                } else {
                    self.passed(c)
                },
                None => self.passed(c),
            }
        }
    }

    /// With the first `n` changes
    pub open spec fn all_applied(self, changes: Seq<Change>, n: int) -> KqView
        decreases n,
    {
        if n <= 0 {
            self
        } else {
            self.all_applied(changes, n - 1).applied(changes[n - 1])
        }
    }

    /// A wait on it is the scheduler's: a guest can end it, or nobody.
    pub open spec fn is_ours(self) -> bool {
        self.regs.len() > 0 || self.guest_objects.len() > 0 || self.user_events.len() > 0
            || self.watches.len() > 0 || self.external.len() == 0
    }

    /// Without a descriptor that was closed
    pub open spec fn without(self, fd: i32) -> KqView {
        KqView {
            fds: other_fds(self.fds, fd),
            external: not_on(self.external, fd),
            regs: regs_not_on(self.regs, fd),
            guest_objects: other_fds(self.guest_objects, fd),
            ..self
        }
    }

    /// One-shot registrations among the first `n` that fired are gone from
    /// the kernel.
    pub open spec fn kernel_fired(self, fired: Seq<Kevent>, n: int) -> KqView
        decreases n,
    {
        if n <= 0 {
            self
        } else {
            let before = self.kernel_fired(fired, n - 1);
            let e = fired[n - 1];
            if e.flags & EV_ONESHOT != 0 {
                KqView { external: other_keys(before.external, (e.ident, e.filter)), ..before }
            } else {
                before
            }
        }
    }
}

/// What the first `n` changes come to for a call that wants receipts
pub open spec fn steps_of(changes: Seq<Change>, n: int) -> Seq<Step>
    decreases n,
{
    if n <= 0 {
        Seq::empty()
    } else {
        let before = steps_of(changes, n - 1);
        let c = changes[n - 1];
        if c.is_ours() {
            if c.ev.flags & EV_RECEIPT != 0 {
                before.push(Step::Ours(c.ev.receipt()))
            } else {
                before
            }
        } else {
            before.push(Step::Kernels(c.ev))
        }
    }
}

/// The changes among the first `n` that are the kernel's
pub open spec fn kernels_of(changes: Seq<Change>, n: int) -> Seq<Kevent>
    decreases n,
{
    if n <= 0 {
        Seq::empty()
    } else {
        let before = kernels_of(changes, n - 1);
        let c = changes[n - 1];
        if c.is_ours() {
            before
        } else {
            before.push(c.ev)
        }
    }
}

/// Some change wants a receipt.
pub open spec fn any_receipt(changes: Seq<Change>, n: int) -> bool {
    exists|i: int| 0 <= i < n && (#[trigger] changes[i]).ev.flags & EV_RECEIPT != 0
}

impl Kq {
    pub fn new(fd: i32) -> (r: Kq)
        ensures
            r@ == KqView::fresh(fd),
    {
        let mut fds: Vec<i32> = Vec::new();
        fds.push(fd);
        let r = Kq {
            fds,
            regs: Vec::new(),
            guest_objects: Vec::new(),
            external: Vec::new(),
            user_events: Vec::new(),
            watches: Vec::new(),
        };
        assert(r@ =~= KqView::fresh(fd));
        r
    }

    /// Apply one change to a virtual registration.
    fn change(&mut self, ev: Kevent, sock: u32)
        ensures
            final(self)@ == old(self)@.changed(ev, sock),
    {
        let ghost was = self@;
        let fd: i32 = ev.ident as i32;
        let mut at: usize = 0;
        while at < self.regs.len() && !(self.regs[at].fd == fd && self.regs[at].filter
            == ev.filter)
            invariant
                at <= self.regs@.len(),
                self@ == was,
                reg_at(was.regs, fd, ev.filter, 0) == reg_at(was.regs, fd, ev.filter, at as int),
            decreases self.regs@.len() - at,
        {
            at += 1;
        }
        if at < self.regs.len() {
            if ev.flags & EV_DELETE != 0 {
                self.regs.remove(at);
            } else {
                let reg: Reg = self.regs[at].change(ev, sock);
                self.regs.set(at, reg);
            }
        } else if ev.flags & EV_DELETE == 0 && ev.flags & EV_ADD != 0 {
            let reg = Reg {
                fd,
                sock,
                filter: ev.filter,
                flags: 0,
                udata: 0,
                enabled: true,
                seen: None,
            };
            self.regs.push(reg.change(ev, sock));
        }
        assert(self@ =~= was.changed(ev, sock));
    }

    /// Apply a change of a watch the run answers.
    fn watch(&mut self, c: Change)
        ensures
            final(self)@ == old(self)@.watching(c),
    {
        let ghost was = self@;
        let ev: Kevent = c.ev;
        let mut at: usize = 0;
        while at < self.watches.len() && !(self.watches[at].ident == ev.ident
            && self.watches[at].filter == ev.filter)
            invariant
                at <= self.watches@.len(),
                self@ == was,
                watch_at(was.watches, ev.ident, ev.filter, 0) == watch_at(
                    was.watches,
                    ev.ident,
                    ev.filter,
                    at as int,
                ),
            decreases self.watches@.len() - at,
        {
            at += 1;
        }
        if at < self.watches.len() {
            if ev.flags & EV_DELETE != 0 {
                self.watches.remove(at);
            } else {
                let w: Watch = self.watches[at].change(ev);
                self.watches.set(at, w);
            }
        } else if ev.flags & EV_DELETE == 0 && ev.flags & EV_ADD != 0 {
            let w = Watch {
                ident: ev.ident,
                filter: ev.filter,
                flags: 0,
                fflags: 0,
                udata: 0,
                enabled: true,
                told: if ev.filter == EVFILT_SIGNAL {
                    c.count
                } else {
                    0
                },
            };
            self.watches.push(w.change(ev));
        }
        assert(self@ =~= was.watching(c));
    }

    fn pass(&mut self, c: Change)
        ensures
            final(self)@ == old(self)@.passed(c),
    {
        let ghost was = self@;
        let fd: i32 = c.ev.ident as i32;
        let io: bool = c.ev.filter == EVFILT_READ || c.ev.filter == EVFILT_WRITE;
        let guests: bool = io && c.guest_object;
        if guests && !has_fd(&self.guest_objects, fd) {
            self.guest_objects.push(fd);
        }
        let deleted: bool = c.ev.flags & EV_DELETE != 0;
        if c.ev.filter == EVFILT_USER {
            self.user_events = drop_ident(&self.user_events, c.ev.ident);
            if !deleted {
                self.user_events.push(c.ev.ident);
            }
        } else if !guests {
            let key: (u64, i16) = (c.ev.ident, c.ev.filter);
            self.external = drop_key(&self.external, key);
            if !deleted {
                self.external.push(key);
            }
        }
        assert(self@ =~= was.passed(c));
    }

    /// Apply changes. Returns what is the kernel's, and what the changes
    /// come to for a call that wants receipts.
    pub fn apply(&mut self, changes: &Vec<Change>) -> (r: (Vec<Kevent>, Vec<Step>, bool))
        ensures
            final(self)@ == old(self)@.all_applied(changes@, changes@.len() as int),
            r.0@ == kernels_of(changes@, changes@.len() as int),
            r.1@ == steps_of(changes@, changes@.len() as int),
            r.2 == any_receipt(changes@, changes@.len() as int),
    {
        let ghost was = self@;
        let mut kernels: Vec<Kevent> = Vec::new();
        let mut steps: Vec<Step> = Vec::new();
        let mut receipts: bool = false;
        let mut i: usize = 0;
        while i < changes.len()
            invariant
                i <= changes@.len(),
                self@ == was.all_applied(changes@, i as int),
                kernels@ == kernels_of(changes@, i as int),
                steps@ == steps_of(changes@, i as int),
                receipts == any_receipt(changes@, i as int),
            decreases changes@.len() - i,
        {
            let c: Change = changes[i];
            let wants: bool = c.ev.flags & EV_RECEIPT != 0;
            proof {
                if wants {
                    assert(changes@[i as int].ev.flags & EV_RECEIPT != 0);
                }
                if receipts {
                    let k = choose|k: int|
                        0 <= k < i && (#[trigger] changes@[k]).ev.flags & EV_RECEIPT != 0;
                    assert(0 <= k < i + 1 && changes@[k].ev.flags & EV_RECEIPT != 0);
                }
            }
            receipts = receipts || wants;
            let io: bool = c.ev.filter == EVFILT_READ || c.ev.filter == EVFILT_WRITE;
            let watch: bool = (c.ev.filter == EVFILT_PROC && c.ev.ident >= VPID_BASE as u64)
                || c.ev.filter == EVFILT_SIGNAL;
            let ours: bool = watch || (io && c.sock.is_some());
            if watch {
                self.watch(c);
            } else {
                match c.sock {
                    Some(sock) if io => {
                        self.change(c.ev, sock);
                    },
                    _ => {
                        self.pass(c);
                    },
                }
            }
            if !ours {
                kernels.push(c.ev);
                steps.push(Step::Kernels(c.ev));
            } else if wants {
                let mut receipt: Kevent = c.ev;
                receipt.flags = c.ev.flags | EV_ERROR;
                receipt.data = 0;
                steps.push(Step::Ours(receipt));
            }
            i += 1;
        }
        (kernels, steps, receipts)
    }

    /// Whether a wait on it is the scheduler's
    pub fn is_ours(&self) -> (r: bool)
        ensures
            r == self@.is_ours(),
    {
        self.regs.len() > 0 || self.guest_objects.len() > 0 || self.user_events.len() > 0
            || self.watches.len() > 0 || self.external.len() == 0
    }

    /// Events the virtual registrations have now, up to `room`. `snaps`
    /// holds what the socket of each registration is ready for.
    pub fn collect(&mut self, snaps: &Vec<Option<Snapshot>>, room: usize) -> (r: Vec<Kevent>)
        requires
            snaps@.len() == old(self)@.regs.len(),
        ensures
            (r@, final(self)@.regs) == collected(
                old(self)@.regs,
                snaps@,
                room as int,
                old(self)@.regs.len() as int,
            ),
            final(self)@ == (KqView { regs: final(self)@.regs, ..old(self)@ }),
    {
        let ghost was = self@;
        let mut events: Vec<Kevent> = Vec::new();
        let mut kept: Vec<Reg> = Vec::new();
        let n: usize = self.regs.len();
        let mut i: usize = 0;
        while i < n
            invariant
                i <= n == snaps@.len(),
                n == self.regs@.len(),
                self@ == was,
                (events@, kept@) == collected(was.regs, snaps@, room as int, i as int),
            decreases n - i,
        {
            let mut r: Reg = self.regs[i];
            match snaps[i] {
                Some(snap) => {
                    let edge: bool = r.flags & EV_CLEAR != 0;
                    let stale: bool = match r.seen {
                        Some(at) => at == snap.events,
                        None => false,
                    };
                    if events.len() < room && r.enabled && snap.now.ready && !(edge && stale) {
                        let mut flags: u16 = r.flags | EV_ADD;
                        if snap.now.eof {
                            flags = flags | EV_EOF;
                        }
                        events.push(
                            Kevent {
                                ident: r.fd as u64,
                                filter: r.filter,
                                flags,
                                fflags: 0,
                                data: snap.now.data,
                                udata: r.udata,
                            },
                        );
                        r.seen = Some(snap.events);
                        if r.flags & EV_ONESHOT == 0 {
                            if r.flags & EV_DISPATCH != 0 {
                                r.enabled = false;
                            }
                            kept.push(r);
                        }
                    } else {
                        kept.push(r);
                    }
                },
                None => {
                    kept.push(r);
                },
            }
            i += 1;
        }
        self.regs = kept;
        events
    }

    /// Events the watches have now, up to `room`. `told` holds what the run
    /// says of what each of them watches.
    pub fn feed(&mut self, told: &Vec<Told>, room: usize) -> (r: Vec<Kevent>)
        requires
            told@.len() == old(self)@.watches.len(),
        ensures
            (r@, final(self)@.watches) == fed(
                old(self)@.watches,
                told@,
                room as int,
                old(self)@.watches.len() as int,
            ),
            final(self)@ == (KqView { watches: final(self)@.watches, ..old(self)@ }),
    {
        let ghost was = self@;
        let mut events: Vec<Kevent> = Vec::new();
        let mut kept: Vec<Watch> = Vec::new();
        let n: usize = self.watches.len();
        let mut i: usize = 0;
        while i < n
            invariant
                i <= n == told@.len(),
                n == self.watches@.len(),
                self@ == was,
                (events@, kept@) == fed(was.watches, told@, room as int, i as int),
            decreases n - i,
        {
            let mut w: Watch = self.watches[i];
            let news: Option<(Kevent, u64)> = if events.len() < room {
                w.tell(told[i])
            } else {
                None
            };
            match news {
                Some((ev, count)) => {
                    events.push(ev);
                    w.told = count;
                    if w.flags & EV_ONESHOT == 0 {
                        if w.flags & EV_DISPATCH != 0 {
                            w.enabled = false;
                        }
                        kept.push(w);
                    }
                },
                None => {
                    kept.push(w);
                },
            }
            i += 1;
        }
        self.watches = kept;
        events
    }

    /// One-shot registrations that fired are gone from the kernel.
    pub fn kernel_fired(&mut self, fired: &Vec<Kevent>)
        ensures
            final(self)@ == old(self)@.kernel_fired(fired@, fired@.len() as int),
    {
        let ghost was = self@;
        let mut i: usize = 0;
        while i < fired.len()
            invariant
                i <= fired@.len(),
                self@ == was.kernel_fired(fired@, i as int),
            decreases fired@.len() - i,
        {
            let e: Kevent = fired[i];
            if e.flags & EV_ONESHOT != 0 {
                let ghost before = self@;
                self.external = drop_key(&self.external, (e.ident, e.filter));
                assert(self@ =~= (KqView {
                    external: other_keys(before.external, (e.ident, e.filter)),
                    ..before
                }));
            }
            i += 1;
        }
    }

    fn drop_closed(&mut self, fd: i32)
        ensures
            final(self)@ == old(self)@.without(fd),
    {
        let ghost was = self@;
        self.fds = drop_fd(&self.fds, fd);
        self.external = drop_on(&self.external, fd);
        self.regs = drop_regs(&self.regs, fd);
        self.guest_objects = drop_fd(&self.guest_objects, fd);
        assert(self@ =~= was.without(fd));
    }
}

/// What a call comes to after its changes
#[derive(Debug, Clone, Copy, PartialEq, Eq, Structural)]
pub enum Route {
    /// Only the outside world can end this wait: a real wait is right.
    Kernel,
    /// A call with receipts reports on its changes and never waits.
    Receipts,
    /// The scheduler's wait
    Scheduler,
}

pub fn route(ours: bool, receipts: bool) -> (r: Route)
    ensures
        r == (if receipts {
            Route::Receipts
        } else if ours {
            Route::Scheduler
        } else {
            Route::Kernel
        }),
{
    if receipts {
        Route::Receipts
    } else if ours {
        Route::Scheduler
    } else {
        Route::Kernel
    }
}

/// A call that wants receipts: what was told so far, and what is left. The
/// kernel's receipts are asked for one change at a time, with room for that
/// receipt alone, so that no pending event comes back in a receipt's place.
pub struct Receipts {
    pub steps: Vec<Step>,
    pub at: usize,
    pub room: usize,
    pub out: Vec<Kevent>,
}

/// With the receipts of our own changes from number `at` on, up to the next
/// that is the kernel's
pub open spec fn ours_told(
    steps: Seq<Step>,
    at: int,
    room: int,
    out: Seq<Kevent>,
) -> (int, Seq<Kevent>)
    decreases steps.len() - at,
{
    if at < 0 || at >= steps.len() {
        (at, out)
    } else {
        match steps[at] {
            Step::Ours(receipt) => ours_told(
                steps,
                at + 1,
                room,
                if out.len() < room {
                    out.push(receipt)
                } else {
                    out
                },
            ),
            Step::Kernels(_) => (at, out),
        }
    }
}

impl Receipts {
    pub open spec fn wf(self) -> bool {
        self.at <= self.steps@.len()
    }

    pub fn new(steps: Vec<Step>, room: usize) -> (r: Receipts)
        ensures
            r.wf(),
            r.steps == steps,
            r.at == 0,
            r.room == room,
            r.out@ == Seq::<Kevent>::empty(),
    {
        Receipts { steps, at: 0, room, out: Vec::new() }
    }

    /// The next change that is the kernel's, and whether its receipt is
    /// wanted and has room. None when all changes are reported on.
    pub fn next(&mut self) -> (r: Option<(Kevent, bool)>)
        requires
            old(self).wf(),
        ensures
            final(self).wf(),
            final(self).steps == old(self).steps,
            final(self).room == old(self).room,
            ({
                let (at, out) = ours_told(
                    old(self).steps@,
                    old(self).at as int,
                    old(self).room as int,
                    old(self).out@,
                );
                &&& final(self).out@ == out
                &&& if at < old(self).steps@.len() {
                    &&& old(self).steps@[at] matches Step::Kernels(ev) && r == Some(
                        (ev, ev.flags & EV_RECEIPT != 0 && out.len() < old(self).room),
                    )
                    &&& final(self).at == at + 1
                } else {
                    r is None && final(self).at == at
                }
            }),
    {
        let ghost goal = ours_told(self.steps@, self.at as int, self.room as int, self.out@);
        while self.at < self.steps.len()
            invariant
                self.wf(),
                self.steps == old(self).steps,
                self.room == old(self).room,
                goal == ours_told(
                    old(self).steps@,
                    old(self).at as int,
                    old(self).room as int,
                    old(self).out@,
                ),
                goal == ours_told(self.steps@, self.at as int, self.room as int, self.out@),
            decreases self.steps@.len() - self.at,
        {
            let step: Step = self.steps[self.at];
            match step {
                Step::Ours(receipt) => {
                    if self.out.len() < self.room {
                        self.out.push(receipt);
                    }
                    self.at = self.at + 1;
                },
                Step::Kernels(ev) => {
                    let wants: bool = ev.flags & EV_RECEIPT != 0 && self.out.len() < self.room;
                    self.at = self.at + 1;
                    return Some((ev, wants));
                },
            }
        }
        None
    }

    /// What the kernel gave for that change
    pub fn take(&mut self, got: &Vec<Kevent>)
        requires
            old(self).wf(),
        ensures
            final(self).wf(),
            final(self).steps == old(self).steps,
            final(self).at == old(self).at,
            final(self).room == old(self).room,
            final(self).out@ == old(self).out@ + got@,
    {
        let ghost was = self.out@;
        let mut i: usize = 0;
        while i < got.len()
            invariant
                self.wf(),
                self.steps == old(self).steps,
                self.at == old(self).at,
                self.room == old(self).room,
                i <= got@.len(),
                self.out@ == was + got@.take(i as int),
            decreases got@.len() - i,
        {
            self.out.push(got[i]);
            i += 1;
            assert(self.out@ =~= was + got@.take(i as int));
        }
        assert(got@.take(i as int) =~= got@);
    }
}

/// Whether a wait is over: something is ready, or nobody wanted to wait
pub fn done(ready: usize, timeout_ns: Option<u64>) -> (r: bool)
    ensures
        r == (ready > 0 || timeout_ns == Some(0u64)),
{
    ready > 0 || match timeout_ns {
        Some(ns) => ns == 0,
        None => false,
    }
}

/// All kqueues of a process
pub struct Registry {
    pub kqs: Vec<Kq>,
}

/// Kqueues as what they hold
pub open spec fn all_of(v: Seq<Kq>) -> Seq<KqView> {
    v.map_values(|k: Kq| k@)
}

/// The first, from number `i` on, that has the descriptor
pub open spec fn kq_at(kqs: Seq<KqView>, fd: i32, i: int) -> Option<int>
    decreases kqs.len() - i,
{
    if i < 0 || i >= kqs.len() {
        None
    } else if kqs[i].fds.contains(fd) {
        Some(i)
    } else {
        kq_at(kqs, fd, i + 1)
    }
}

/// A descriptor was closed: a kqueue goes away with its registrations, and
/// any other descriptor drops out of every kqueue.
pub open spec fn after_close(kqs: Seq<KqView>, fd: i32) -> Seq<KqView>
    decreases kqs.len(),
{
    if kqs.len() == 0 {
        Seq::empty()
    } else {
        let before = after_close(kqs.drop_last(), fd);
        let k = kqs.last().without(fd);
        if k.fds.len() == 0 {
            before
        } else {
            before.push(k)
        }
    }
}

impl View for Registry {
    type V = Seq<KqView>;

    open spec fn view(&self) -> Seq<KqView> {
        all_of(self.kqs@)
    }
}

impl Registry {
    pub fn new() -> (r: Registry)
        ensures
            r@ == Seq::<KqView>::empty(),
    {
        let r = Registry { kqs: Vec::new() };
        assert(r@ =~= Seq::empty());
        r
    }

    /// In the child of a `fork`: the parent's kqueues are not ours.
    pub fn forked(&mut self)
        ensures
            final(self)@ == Seq::<KqView>::empty(),
    {
        self.kqs = Vec::new();
        assert(self@ =~= Seq::empty());
    }

    /// A descriptor was closed: a kqueue goes away with its registrations,
    /// and any other descriptor drops out of every kqueue, as in the kernel.
    pub fn closed(&mut self, fd: i32)
        ensures
            final(self)@ == after_close(old(self)@, fd),
    {
        let ghost was = self@;
        let mut all: Vec<Kq> = Vec::new();
        std::mem::swap(&mut all, &mut self.kqs);
        let mut kept: Vec<Kq> = Vec::new();
        let n: usize = all.len();
        let mut left: Vec<Kq> = Vec::new();
        // From the back, so that each can be taken out
        while all.len() > 0
            invariant
                all@.len() <= n,
                was.len() == n,
                all_of(all@) == was.take(all@.len() as int),
                after_close(was, fd) == after_close(all_of(all@), fd) + all_of(left@).reverse(),
            decreases all@.len(),
        {
            let ghost before = all_of(all@);
            let ghost done = all_of(left@);
            let mut k = all.pop().unwrap();
            assert(all_of(all@) =~= before.drop_last());
            assert(before.last() == k@);
            k.drop_closed(fd);
            if k.fds.len() > 0 {
                left.push(k);
                assert(all_of(left@) =~= done.push(k@));
                assert(done.push(k@).reverse() =~= seq![k@] + done.reverse());
                assert(after_close(before.drop_last(), fd).push(k@) + done.reverse()
                    =~= after_close(before.drop_last(), fd) + (seq![k@] + done.reverse()));
            }
        }
        let ghost backwards = all_of(left@);
        assert(after_close(was, fd) =~= backwards.reverse());
        while left.len() > 0
            invariant
                backwards.len() == left@.len() + kept@.len(),
                all_of(left@) == backwards.take(left@.len() as int),
                all_of(kept@) == backwards.skip(left@.len() as int).reverse(),
            decreases left@.len(),
        {
            let ghost m = left@.len() - 1;
            let ghost front = all_of(left@);
            let ghost back = all_of(kept@);
            let k = left.pop().unwrap();
            assert(front.last() == k@);
            assert(all_of(left@) =~= front.drop_last());
            kept.push(k);
            assert(all_of(kept@) =~= back.push(k@));
            assert(backwards.skip(m).reverse() =~= back.push(k@));
        }
        assert(backwards.skip(0) =~= backwards);
        self.kqs = kept;
    }

    /// `new` is a duplicate of `fd`.
    pub fn duplicated(&mut self, fd: i32, new: i32)
        ensures
            final(self)@ == (match kq_at(old(self)@, fd, 0) {
                Some(i) => old(self)@.update(
                    i,
                    KqView { fds: old(self)@[i].fds.push(new), ..old(self)@[i] },
                ),
                None => old(self)@,
            }),
    {
        match self.find(fd) {
            Some(i) => {
                let ghost was = self@;
                let mut k = Kq::new(new);
                std::mem::swap(&mut k, &mut self.kqs[i]);
                let ghost before = k@;
                k.fds.push(new);
                std::mem::swap(&mut k, &mut self.kqs[i]);
                assert(self@ =~= was.update(
                    i as int,
                    KqView { fds: was[i as int].fds.push(new), ..was[i as int] },
                ));
            },
            None => {},
        }
    }

    /// The kqueue that a descriptor is of
    pub fn find(&self, fd: i32) -> (r: Option<usize>)
        ensures
            match r {
                Some(i) => i < self@.len() && kq_at(self@, fd, 0) == Some(i as int),
                None => kq_at(self@, fd, 0) is None,
            },
    {
        let mut i: usize = 0;
        while i < self.kqs.len()
            invariant
                i <= self.kqs@.len(),
                kq_at(self@, fd, 0) == kq_at(self@, fd, i as int),
            decreases self.kqs@.len() - i,
        {
            assert(self@[i as int] == self.kqs@[i as int]@);
            if has_fd(&self.kqs[i].fds, fd) {
                return Some(i);
            }
            i += 1;
        }
        None
    }

    /// The kernel made a kqueue. A stale entry under this number was closed
    /// where we did not see it. One that a scheduled thread made is known
    /// from birth, so that duplicates made before its first `kevent` are
    /// known too.
    pub fn created(&mut self, fd: i32, scheduled: bool)
        ensures
            final(self)@ == (if scheduled {
                after_close(old(self)@, fd).push(KqView::fresh(fd))
            } else {
                after_close(old(self)@, fd)
            }),
    {
        self.closed(fd);
        if scheduled {
            let ghost was = self@;
            self.kqs.push(Kq::new(fd));
            assert(self@ =~= was.push(KqView::fresh(fd)));
        }
    }

    /// The kqueue that a descriptor is of, which is new where it was not
    /// known
    pub fn find_or_add(&mut self, fd: i32) -> (r: usize)
        ensures
            match kq_at(old(self)@, fd, 0) {
                Some(i) => r == i && final(self)@ == old(self)@,
                None => r == old(self)@.len() && final(self)@ == old(self)@.push(
                    KqView::fresh(fd),
                ),
            },
            r < final(self)@.len(),
    {
        match self.find(fd) {
            Some(i) => i,
            None => {
                let ghost was = self@;
                self.kqs.push(Kq::new(fd));
                assert(self@ =~= was.push(KqView::fresh(fd)));
                self.kqs.len() - 1
            },
        }
    }
}

proof fn lemma_other_fds(s: Seq<i32>, fd: i32)
    ensures
        !other_fds(s, fd).contains(fd),
    decreases s.len(),
{
    if s.len() > 0 {
        lemma_other_fds(s.drop_last(), fd);
        let r = other_fds(s, fd);
        if r.contains(fd) {
            let i = choose|i: int| 0 <= i < r.len() && r[i] == fd;
            if i < other_fds(s.drop_last(), fd).len() {
                assert(other_fds(s.drop_last(), fd)[i] == fd);
            }
        }
    }
}

proof fn lemma_regs_not_on(s: Seq<Reg>, fd: i32)
    ensures
        forall|i: int|
            0 <= i < regs_not_on(s, fd).len() ==> (#[trigger] regs_not_on(s, fd)[i]).fd != fd,
    decreases s.len(),
{
    if s.len() > 0 {
        lemma_regs_not_on(s.drop_last(), fd);
        let b = regs_not_on(s.drop_last(), fd);
        assert forall|i: int| 0 <= i < regs_not_on(s, fd).len() implies (#[trigger] regs_not_on(
            s,
            fd,
        )[i]).fd != fd by {
            if i < b.len() {
                assert(regs_not_on(s, fd)[i] == b[i]);
            }
        }
    }
}

/// No kqueue knows a descriptor that was closed, and none is left without a
/// descriptor of its own.
pub proof fn a_closed_descriptor_is_forgotten(kqs: Seq<KqView>, fd: i32, i: int)
    requires
        0 <= i < after_close(kqs, fd).len(),
    ensures
        ({
            let k = after_close(kqs, fd)[i];
            &&& k.fds.len() > 0
            &&& !k.fds.contains(fd)
            &&& !k.guest_objects.contains(fd)
            &&& forall|j: int| 0 <= j < k.regs.len() ==> (#[trigger] k.regs[j]).fd != fd
        }),
    decreases kqs.len(),
{
    if kqs.len() > 0 {
        let before = after_close(kqs.drop_last(), fd);
        let last = kqs.last();
        lemma_other_fds(last.fds, fd);
        lemma_other_fds(last.guest_objects, fd);
        lemma_regs_not_on(last.regs, fd);
        if i < before.len() {
            a_closed_descriptor_is_forgotten(kqs.drop_last(), fd, i);
        }
    }
}

/// A registration that has fired does not fire again at once: a one-shot is
/// gone, one that is delivered once is disabled, and an edge-triggered one
/// waits for the next event.
pub proof fn what_fired_waits_for_its_next_cause(r: Reg, now: Readiness, events: u64)
    requires
        r.fires(now, events),
        r.flags & FIRING != 0,
    ensures
        r.fired(events) matches Some(after) ==> !after.fires(now, events),
{
    let f = r.flags;
    assert(f & 0xb0 != 0 ==> f & 0x10 != 0 || f & 0x20 != 0 || f & 0x80 != 0) by (bit_vector);
}

/// A registration that is level-triggered goes on firing while its socket
/// is ready.
pub proof fn a_level_triggered_registration_keeps_firing(r: Reg, now: Readiness, events: u64)
    requires
        r.fires(now, events),
        r.flags & FIRING == 0,
    ensures
        r.fired(events) matches Some(after) && after.fires(now, events),
{
    let f = r.flags;
    assert(f & 0xb0 == 0 ==> f & 0x10 == 0 && f & 0x20 == 0 && f & 0x80 == 0) by (bit_vector);
}

/// What a watch has told it does not tell again: it waits for another signal,
/// or is done with its process.
pub proof fn a_watch_tells_once(w: Watch, t: Told)
    requires
        w.fires(t),
    ensures
        w.fired(t) matches Some(after) ==> !after.fires(t),
{
}

proof fn lemma_fed(watches: Seq<Watch>, told: Seq<Told>, room: int, i: int, n: int)
    requires
        0 <= i < n <= watches.len(),
        room > 0,
        watches[i].fires(told[i]),
    ensures
        fed(watches, told, room, n).0.len() > 0,
    decreases n,
{
    if i < n - 1 {
        lemma_fed(watches, told, room, i, n - 1);
    }
}

/// Where there is room, a watch that has something to tell gives an event, its
/// own or an earlier one's.
pub proof fn what_is_watched_is_told(watches: Seq<Watch>, told: Seq<Told>, room: int, i: int)
    requires
        0 <= i < watches.len(),
        room > 0,
        watches[i].fires(told[i]),
    ensures
        fed(watches, told, room, watches.len() as int).0.len() > 0,
{
    lemma_fed(watches, told, room, i, watches.len() as int);
}

} // verus!
