//! The blocking calls that are replaced: when a call would block, the block
//! becomes a scheduler wait. What each of them waits for, until when, and
//! what it returns.

use vstd::prelude::*;
use crate::determinism::{MONOTONIC_BASE_NS, REALTIME_BASE_NS};
use crate::errno::Errno;

verus! {

pub const DISPATCH_TIME_FOREVER: u64 = 0xFFFF_FFFF_FFFF_FFFF;

/// Pseudo address joiners block on; never a real pointer
pub const JOIN_KEYS: u64 = 0x7FFF_0000_0000;

pub fn join_key(id: u32) -> (r: u64)
    ensures
        r == JOIN_KEYS + id,
{
    JOIN_KEYS + id as u64
}

/// The wait is over 64-bit words.
pub open spec fn is_wide(op: u32) -> bool {
    4 <= op % 0x100 <= 6
}

pub fn ulock_is_wide(op: u32) -> (r: bool)
    ensures
        r == is_wide(op),
{
    let kind: u32 = op % 0x100;
    4 <= kind && kind <= 6
}

/// Unfair locks' waits are woken only if the kernel set the waiter bit while
/// the waiter slept in the kernel; since ours never do, the unlock would not
/// wake them. Those waits yield and retry instead of parking.
pub fn ulock_is_unfair(op: u32) -> (r: bool)
    ensures
        r == (op % 0x100 == 2 || op % 0x100 == 4),
{
    let kind: u32 = op % 0x100;
    kind == 2 || kind == 4
}

/// Whether a word in memory is `value`, at the width the wait implies
pub fn value_matches(word: u64, value: u64, wide: bool) -> (r: bool)
    ensures
        r == (if wide {
            word == value
        } else {
            word % 0x1_0000_0000 == value % 0x1_0000_0000
        }),
{
    if wide {
        word == value
    } else {
        word % 0x1_0000_0000 == value % 0x1_0000_0000
    }
}

/// `a + b`, or as much as there is
pub open spec fn sum_within(a: u64, b: u64) -> u64 {
    if a + b > u64::MAX {
        u64::MAX
    } else {
        (a + b) as u64
    }
}

/// When a wait of at most `timeout_ns` of virtual time ends (0: never)
pub fn futex_deadline(now: u64, timeout_ns: u64) -> (r: Option<u64>)
    ensures
        r == (if timeout_ns == 0 {
            None
        } else {
            Some(sum_within(now, timeout_ns))
        }),
{
    if timeout_ns == 0 {
        None
    } else {
        Some(sleep_deadline(now, timeout_ns))
    }
}

/// When a sleep of `ns` ends
pub fn sleep_deadline(now: u64, ns: u64) -> (r: u64)
    ensures
        r == sum_within(now, ns),
{
    if ns > u64::MAX - now {
        u64::MAX
    } else {
        now + ns
    }
}

/// A `timespec` taken as unsigned, or as much as there is
pub open spec fn unsigned_ns(sec: u64, nsec: u64) -> u64 {
    if sec * 1_000_000_000 + nsec > u64::MAX {
        u64::MAX
    } else {
        (sec * 1_000_000_000 + nsec) as u64
    }
}

pub fn timespec_unsigned(sec: u64, nsec: u64) -> (r: u64)
    ensures
        r == unsigned_ns(sec, nsec),
{
    let whole: u128 = sec as u128 * 1_000_000_000 + nsec as u128;
    if whole > u64::MAX as u128 {
        u64::MAX
    } else {
        whole as u64
    }
}

/// A deadline on the virtual real-time clock, on the run's clock. One before
/// the run is at its start.
pub fn cond_deadline(sec: u64, nsec: u64) -> (r: u64)
    ensures
        ({
            let abs = unsigned_ns(sec, nsec);
            r == (if abs < REALTIME_BASE_NS {
                0
            } else {
                (abs - REALTIME_BASE_NS) as u64
            })
        }),
{
    let abs: u64 = timespec_unsigned(sec, nsec);
    if abs < REALTIME_BASE_NS {
        0
    } else {
        abs - REALTIME_BASE_NS
    }
}

/// What a timed wait returns once it has its lock again
pub fn cond_result(locked: Option<Errno>, signaled: bool) -> (r: Option<Errno>)
    ensures
        r == (if locked is Some {
            locked
        } else if signaled {
            None
        } else {
            Some(Errno::TimedOut)
        }),
{
    if locked.is_some() {
        locked
    } else if signaled {
        None
    } else {
        Some(Errno::TimedOut)
    }
}

/// The threads the scheduler runs in this process, by the port the kernel
/// knows them under. The rest run outside the baton; what they do is input.
pub struct Ports {
    ports: Vec<(u32, usize)>,
}

impl View for Ports {
    type V = Seq<(u32, usize)>;

    closed spec fn view(&self) -> Seq<(u32, usize)> {
        self.ports@
    }
}

/// The first thread from `i` on with this port
pub open spec fn thread_at(ports: Seq<(u32, usize)>, port: u32, i: int) -> Option<usize>
    decreases ports.len() - i,
{
    if i < 0 || i >= ports.len() {
        None
    } else if ports[i].0 == port {
        Some(ports[i].1)
    } else {
        thread_at(ports, port, i + 1)
    }
}

/// Without the threads of this port, of the first `n`
pub open spec fn forgotten(ports: Seq<(u32, usize)>, port: u32, n: int) -> Seq<(u32, usize)>
    decreases n,
{
    if n <= 0 {
        Seq::empty()
    } else if ports[n - 1].0 == port {
        forgotten(ports, port, n - 1)
    } else {
        forgotten(ports, port, n - 1).push(ports[n - 1])
    }
}

/// The owner that the lock word of an unfair lock names: a port above two
/// flag bits
pub open spec fn owner_of(ports: Seq<(u32, usize)>, value: u64) -> Option<usize> {
    let owner = (value % 0x1_0000_0000 / 4 * 4) as u32;
    if owner == 0 {
        None
    } else {
        match thread_at(ports, owner, 0) {
            Some(id) => Some(id),
            None => thread_at(ports, (owner + 3) as u32, 0),
        }
    }
}

impl Ports {
    pub fn new() -> (r: Self)
        ensures
            r@ == Seq::<(u32, usize)>::empty(),
    {
        Ports { ports: Vec::new() }
    }

    pub fn count(&self) -> (r: usize)
        ensures
            r == self@.len(),
    {
        self.ports.len()
    }

    pub fn add(&mut self, port: u32, id: usize)
        ensures
            final(self)@ == old(self)@.push((port, id)),
    {
        self.ports.push((port, id));
    }

    /// The thread with this port is gone.
    pub fn forget(&mut self, port: u32)
        ensures
            final(self)@ == forgotten(old(self)@, port, old(self)@.len() as int),
    {
        let mut kept: Vec<(u32, usize)> = Vec::new();
        let mut i: usize = 0;
        while i < self.ports.len()
            invariant
                i <= self.ports@.len(),
                self@ == old(self)@,
                kept@ == forgotten(self.ports@, port, i as int),
            decreases self.ports@.len() - i,
        {
            let one = self.ports[i];
            if one.0 != port {
                kept.push(one);
            }
            i += 1;
        }
        self.ports = kept;
    }

    /// The scheduler's id of the thread with this port, if it runs it
    pub fn scheduled_thread(&self, port: u32) -> (r: Option<usize>)
        ensures
            r == thread_at(self@, port, 0),
    {
        let mut i: usize = 0;
        while i < self.ports.len()
            invariant
                i <= self.ports@.len(),
                thread_at(self@, port, 0) == thread_at(self.ports@, port, i as int),
            decreases self.ports@.len() - i,
        {
            if self.ports[i].0 == port {
                return Some(self.ports[i].1);
            }
            i += 1;
        }
        None
    }

    /// Who holds an unfair lock, if it is a thread the scheduler runs
    pub fn unfair_owner(&self, value: u64) -> (r: Option<usize>)
        ensures
            r == owner_of(self@, value),
    {
        let owner: u32 = (value % 0x1_0000_0000 / 4 * 4) as u32;
        if owner == 0 {
            return None;
        }
        match self.scheduled_thread(owner) {
            Some(id) => Some(id),
            None => self.scheduled_thread(owner + 3),
        }
    }
}

proof fn lemma_forgotten(ports: Seq<(u32, usize)>, port: u32, n: int, i: int)
    requires
        0 <= n <= ports.len(),
        0 <= i < forgotten(ports, port, n).len(),
    ensures
        forgotten(ports, port, n)[i].0 != port,
    decreases n,
{
    let before = forgotten(ports, port, n - 1);
    if ports[n - 1].0 == port || i < before.len() {
        lemma_forgotten(ports, port, n - 1, i);
    }
}

proof fn lemma_none_at(ports: Seq<(u32, usize)>, port: u32, i: int)
    requires
        forall|k: int| 0 <= k < ports.len() ==> (#[trigger] ports[k]).0 != port,
    ensures
        thread_at(ports, port, i) is None,
    decreases ports.len() - i,
{
    if 0 <= i < ports.len() {
        lemma_none_at(ports, port, i + 1);
    }
}

/// A thread that was forgotten owns nothing any more.
pub proof fn a_forgotten_thread_is_not_found(ports: Seq<(u32, usize)>, port: u32)
    ensures
        thread_at(forgotten(ports, port, ports.len() as int), port, 0) is None,
{
    let left = forgotten(ports, port, ports.len() as int);
    assert forall|k: int| 0 <= k < left.len() implies (#[trigger] left[k]).0 != port by {
        lemma_forgotten(ports, port, ports.len() as int, k);
    }
    lemma_none_at(left, port, 0);
}

/// What a contended unfair lock's wait is
#[derive(Debug, Clone, Copy, PartialEq, Eq, Structural)]
pub enum Unfair {
    /// The kernel's wait, which the owner's unlock ends
    Kernel,
    /// The owner holds it until it runs again: the baton goes on.
    Yield,
    /// It was let go since: try again.
    Retry,
    /// The owner runs in real time without the baton and lets go by itself
    /// in a moment. Whether it was caught holding the lock is real-time luck
    /// and must not show in the schedule: wait it out in the kernel, and
    /// look again.
    LookAgain,
}

/// Who holds a contended unfair lock decides what the wait is. Only the
/// baton holder's waits are the schedule's business.
pub fn unfair_wait(holds_baton: bool, owner: Option<usize>, parked: bool, still_held: bool) -> (r:
    Unfair)
    ensures
        r == (if !holds_baton || owner is None {
            Unfair::Kernel
        } else if !parked {
            Unfair::LookAgain
        } else if still_held {
            Unfair::Yield
        } else {
            Unfair::Retry
        }),
{
    if !holds_baton || owner.is_none() {
        Unfair::Kernel
    } else if !parked {
        Unfair::LookAgain
    } else if still_held {
        Unfair::Yield
    } else {
        Unfair::Retry
    }
}

/// What a wake returns: "nobody was waiting" is only true if neither world
/// had a waiter.
pub fn wake_result(ours: usize, kernel: i32) -> (r: i32)
    ensures
        r == (if ours > 0 {
            0
        } else {
            kernel
        }),
{
    if ours > 0 {
        0
    } else {
        kernel
    }
}

/// A millisecond
pub const MS: i64 = 1_000_000;

/// `x`, or the nearest that 64 bits hold
pub open spec fn clamped(x: int) -> int {
    if x > i64::MAX {
        i64::MAX as int
    } else if x < i64::MIN {
        i64::MIN as int
    } else {
        x
    }
}

/// Absolute ticks in nanoseconds: 125/3 each
pub open spec fn ticks_ns(ticks: int) -> int {
    clamped(ticks * 125) / 3
}

/// To the millisecond, which absorbs the time since a clock was read
pub open spec fn to_ms(ns: int) -> int {
    if ns + 500_000 < 0 {
        0
    } else {
        (ns + 500_000) / 1_000_000 * 1_000_000
    }
}

/// A deadline is taken on both clocks, and the smaller distance that is not
/// in the past names the clock it came from.
pub open spec fn nearer(on_real: int, on_virtual: int) -> int {
    if on_real >= -MS && on_virtual >= -MS && on_virtual <= on_real {
        on_virtual
    } else if on_real >= -MS {
        to_ms(on_real)
    } else if on_virtual >= -MS {
        on_virtual
    } else {
        0
    }
}

/// The deadline is wall time, encoded as minus nanoseconds since the epoch;
/// else it is in ticks.
pub open spec fn is_wall(timeout: u64) -> bool {
    timeout >= 0x8000_0000_0000_0000
}

/// How long a deadline is from now, in nanoseconds (0: forever)
pub open spec fn distance(timeout: u64, now: u64, wall_ns: i64, ticks: u64) -> int {
    if timeout == DISPATCH_TIME_FOREVER {
        0
    } else {
        let (deadline, real_now, virtual_now) = if is_wall(timeout) {
            (
                // The most negative number is its own negation
                if timeout == 0x8000_0000_0000_0000 {
                    i64::MIN as int
                } else {
                    0x1_0000_0000_0000_0000 - timeout
                },
                wall_ns as int,
                REALTIME_BASE_NS + now,
            )
        } else {
            (ticks_ns(timeout as int), ticks_ns(ticks as int), MONOTONIC_BASE_NS + now)
        };
        let ns = nearer(clamped(deadline - real_now), clamped(deadline - virtual_now));
        if ns < 1 {
            1
        } else {
            ns
        }
    }
}

fn clamp(x: i128) -> (r: i128)
    ensures
        r == clamped(x as int),
{
    if x > i64::MAX as i128 {
        i64::MAX as i128
    } else if x < i64::MIN as i128 {
        i64::MIN as i128
    } else {
        x
    }
}

fn nanoseconds(ticks: u64) -> (r: i128)
    ensures
        r == ticks_ns(ticks as int),
{
    clamp(ticks as i128 * 125) / 3
}

/// How long a `dispatch_time_t` deadline is from now, in nanoseconds (0:
/// forever). It was computed from a clock read: through our interposers (the
/// virtual clock) or inline (the real one), depending on the path. The two
/// clocks are far apart, so the distance is taken on both. `wall_ns` and
/// `ticks` are the real clocks.
pub fn dispatch_timeout_ns(timeout: u64, now: u64, wall_ns: i64, ticks: u64) -> (r: u64)
    requires
        now + REALTIME_BASE_NS <= i64::MAX,
        MS <= wall_ns,
        ticks <= i64::MAX,
    ensures
        r == distance(timeout, now, wall_ns, ticks),
{
    if timeout == DISPATCH_TIME_FOREVER {
        return 0;
    }
    let (deadline, real_now, virtual_now): (i128, i128, i128) = if timeout
        >= 0x8000_0000_0000_0000 {
        (
            if timeout == 0x8000_0000_0000_0000 {
                i64::MIN as i128
            } else {
                0x1_0000_0000_0000_0000i128 - timeout as i128
            },
            wall_ns as i128,
            REALTIME_BASE_NS as i128 + now as i128,
        )
    } else {
        (nanoseconds(timeout), nanoseconds(ticks), MONOTONIC_BASE_NS as i128 + now as i128)
    };
    let on_real: i128 = clamp(deadline - real_now);
    let on_virtual: i128 = clamp(deadline - virtual_now);
    let late: i128 = -(MS as i128);
    let ns: i128 = if on_real >= late && on_virtual >= late && on_virtual <= on_real {
        on_virtual
    } else if on_real >= late {
        if on_real + 500_000 < 0 {
            0
        } else {
            (on_real + 500_000) / 1_000_000 * 1_000_000
        }
    } else if on_virtual >= late {
        on_virtual
    } else {
        0
    };
    if ns < 1 {
        1
    } else {
        ns as u64
    }
}

/// A wait that was asked for ends: only the deadline that means forever is
/// answered with no bound.
pub proof fn only_forever_has_no_bound(timeout: u64, now: u64, wall_ns: i64, ticks: u64)
    ensures
        distance(timeout, now, wall_ns, ticks) == 0 <==> timeout == DISPATCH_TIME_FOREVER,
{
}

/// How far a wall-clock time is: as far as the nearer of the two clocks says, by
/// which the program may have computed it, the virtual one to the nanosecond
/// and the real one to the millisecond, and never nothing.
pub proof fn a_time_is_as_far_as_the_nearer_clock_says(
    deadline: int,
    now: u64,
    wall_ns: i64,
    ticks: u64,
)
    requires
        0 < deadline < 0x8000_0000_0000_0000,
        now + REALTIME_BASE_NS <= i64::MAX,
        MS <= wall_ns,
        ticks <= i64::MAX,
    ensures
        ({
            let timeout = (0x1_0000_0000_0000_0000 - deadline) as u64;
            let far = distance(timeout, now, wall_ns, ticks);
            let on_virtual = deadline - (REALTIME_BASE_NS + now);
            let on_real = deadline - wall_ns;
            deadline > 1 ==> {
                &&& far >= 1
                &&& 1 <= on_virtual <= on_real ==> far == on_virtual
                &&& 1_000_000 <= on_real < on_virtual ==> -500_000 <= far - on_real <= 500_000 && far
                    % 1_000_000 == 0
                &&& on_virtual >= 1 && on_real < -1_000_000 ==> far == on_virtual
                &&& on_virtual < -1_000_000 && on_real < -1_000_000 ==> far == 1
            }
        }),
        distance(DISPATCH_TIME_FOREVER, now, wall_ns, ticks) == 0,
{
}

/// The owner of a lock is the thread whose port its word holds, with the two
/// low bits as they may be.
pub proof fn a_lock_word_names_its_owner(ports: Seq<(u32, usize)>, value: u64, i: int)
    requires
        0 <= i < ports.len(),
        forall|k: int| 0 <= k < i ==> (#[trigger] ports[k]).0 / 4 != ports[i].0 / 4,
        ports[i].0 / 4 == (value % 0x1_0000_0000) / 4,
        ports[i].0 % 4 == 0,
        ports[i].0 != 0,
    ensures
        owner_of(ports, value) == Some(ports[i].1),
{
    let owner = (value % 0x1_0000_0000 / 4 * 4) as u32;
    assert(owner == ports[i].0);
    assert forall|k: int| 0 <= k < i implies (#[trigger] ports[k]).0 != owner by {
        assert(ports[k].0 / 4 != ports[i].0 / 4);
    }
    lemma_thread_at(ports, owner, 0, i);
}

proof fn lemma_thread_at(ports: Seq<(u32, usize)>, port: u32, from: int, i: int)
    requires
        0 <= from <= i < ports.len(),
        ports[i].0 == port,
        forall|k: int| 0 <= k < i ==> (#[trigger] ports[k]).0 != port,
    ensures
        thread_at(ports, port, from) == Some(ports[i].1),
    decreases i - from,
{
    if from < i {
        assert(ports[from].0 != port);
        lemma_thread_at(ports, port, from + 1, i);
    }
}

/// A thread that was registered is found by its port.
pub proof fn a_registered_thread_is_found(ports: Seq<(u32, usize)>, port: u32, id: usize)
    requires
        forall|k: int| 0 <= k < ports.len() ==> (#[trigger] ports[k]).0 != port,
    ensures
        thread_at(ports.push((port, id)), port, 0) == Some(id),
{
    let all = ports.push((port, id));
    let i = ports.len() as int;
    assert forall|k: int| 0 <= k < i implies (#[trigger] all[k]).0 != port by {
        assert(all[k] == ports[k]);
    }
    lemma_thread_at(all, port, 0, i);
}

/// A deadline is so far from now, or as late as can be; a time of seconds and
/// nanoseconds is so many nanoseconds, or as many as can be.
pub proof fn a_deadline_is_so_far_from_now(now: u64, ns: u64, sec: u64, nsec: u64)
    ensures
        now + ns <= u64::MAX ==> sum_within(now, ns) == now + ns,
        now + ns > u64::MAX ==> sum_within(now, ns) == u64::MAX,
        sec * 1_000_000_000 + nsec <= u64::MAX ==> unsigned_ns(sec, nsec) == sec * 1_000_000_000
            + nsec,
        sec * 1_000_000_000 + nsec > u64::MAX ==> unsigned_ns(sec, nsec) == u64::MAX,
{
}

} // verus!
