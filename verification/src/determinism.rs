//! The remaining sources of run-to-run variation that a guest can observe:
//! entropy and the clock.

use vstd::prelude::*;
use crate::bytes;
use crate::bytes::{bytes64, same};
use crate::rng;
use crate::rng::Rng;
use crate::environ;

verus! {

/// Sets the entropy stream apart from the schedule's.
pub const ENTROPY_STREAM: u64 = 0x5EED_5EED_5EED_5EED;

/// The most one `getentropy` gives
pub const MAX_ENTROPY: usize = 256;

/// The first `n` bytes of the stream in state `s`: the bytes of its words,
/// from the lowest up
pub open spec fn drawn(s: Seq<u64>, n: nat) -> Seq<u8> {
    Seq::new(n, |i: int| bytes::le64(rng::output(rng::state_after(s, (i / 8) as nat)))[i % 8])
}

/// The state behind them: a word that was begun is used up.
pub open spec fn drawn_state(s: Seq<u64>, n: nat) -> Seq<u64> {
    rng::state_after(s, (n + 7) / 8)
}

/// The entropy of a process, seeded with its run
pub struct Entropy {
    rng: Rng,
    reseeded: bool,
}

pub struct EntropyView {
    pub stream: Seq<u64>,
    /// The run's reseed time has passed for this process.
    pub reseeded: bool,
}

impl View for Entropy {
    type V = EntropyView;

    closed spec fn view(&self) -> EntropyView {
        EntropyView { stream: self.rng@, reseeded: self.reseeded }
    }
}

impl EntropyView {
    /// Switched to the seed of the run's second part, if that has begun
    pub open spec fn switched(self, reseed: Option<u64>) -> EntropyView {
        match reseed {
            Some(seed) => if self.reseeded {
                self
            } else {
                EntropyView { stream: rng::expanded(seed ^ ENTROPY_STREAM), reseeded: true }
            },
            None => self,
        }
    }

    pub open spec fn after(self, n: nat) -> EntropyView {
        EntropyView { stream: drawn_state(self.stream, n), ..self }
    }
}

fn join32(b: Vec<u8>) -> (r: u32)
    requires
        b@.len() == 4,
    ensures
        bytes::le32(r) == b@,
{
    let r: u32 = b[0] as u32 + 0x100 * b[1] as u32 + 0x1_0000 * b[2] as u32 + 0x100_0000
        * b[3] as u32;
    assert(r % 0x100 == b@[0]);
    assert(r / 0x100 == b@[1] + 0x100 * b@[2] + 0x1_0000 * b@[3]);
    assert(r / 0x1_0000 == b@[2] + 0x100 * b@[3]);
    assert(bytes::le32(r) =~= b@);
    r
}

impl Entropy {
    /// The stream of a process. The child of a `fork` gets its own, and
    /// switches at its first draw where the reseed time has passed.
    pub fn new(seed: u64) -> (r: Self)
        ensures
            r@ == (EntropyView { stream: rng::expanded(seed ^ ENTROPY_STREAM), reseeded: false }),
    {
        Entropy { rng: Rng::seed_from_u64(seed ^ ENTROPY_STREAM), reseeded: false }
    }

    /// Switch the stream, once, when the run's reseed time has passed.
    /// `reseed` is the seed to go on with from then on.
    pub fn reseed(&mut self, reseed: Option<u64>)
        ensures
            final(self)@ == old(self)@.switched(reseed),
    {
        if let Some(seed) = reseed {
            if !self.reseeded {
                self.rng = Rng::seed_from_u64(seed ^ ENTROPY_STREAM);
                self.reseeded = true;
            }
        }
    }

    /// The next `n` bytes
    pub fn fill(&mut self, n: usize) -> (r: Vec<u8>)
        ensures
            r@ == drawn(old(self)@.stream, n as nat),
            final(self)@ == old(self)@.after(n as nat),
    {
        let ghost start = self@.stream;
        let ghost again = self@.reseeded;
        let mut out: Vec<u8> = Vec::new();
        let mut word: Vec<u8> = Vec::new();
        let mut i: usize = 0;
        assert(out@ =~= drawn(start, 0));
        while i < n
            invariant
                i <= n,
                out@ == drawn(start, i as nat),
                self@.stream == drawn_state(start, i as nat),
                self@.reseeded == again,
                i % 8 != 0 ==> word@ == bytes::le64(
                    rng::output(rng::state_after(start, (i / 8) as nat)),
                ),
            decreases n - i,
        {
            if i % 8 == 0 {
                assert((i + 7) / 8 == i / 8);
                word = bytes64(self.rng.next_u64());
                assert(rng::state_after(start, (i / 8 + 1) as nat) == self.rng@);
                assert((i + 1 + 7) / 8 == i / 8 + 1);
            } else {
                assert((i + 1 + 7) / 8 == (i + 7) / 8);
            }
            out.push(word[i % 8]);
            i += 1;
            assert(out@ =~= drawn(start, i as nat));
        }
        out
    }

    /// `arc4random`
    pub fn number(&mut self) -> (r: u32)
        ensures
            bytes::le32(r) == drawn(old(self)@.stream, 4),
            final(self)@ == old(self)@.after(4),
    {
        let b = self.fill(4);
        join32(b)
    }

    /// `arc4random_uniform`. There is nothing to draw below 2.
    pub fn uniform(&mut self, bound: u32) -> (r: u32)
        ensures
            bound < 2 ==> r == 0 && final(self)@ == old(self)@,
            bound >= 2 ==> r == rng::scaled(rng::output(old(self)@.stream), bound as u64) && r
                < bound && final(self)@ == (EntropyView {
                stream: rng::advanced(old(self)@.stream),
                ..old(self)@
            }),
    {
        if bound < 2 {
            return 0;
        }
        self.rng.below(bound as u64) as u32
    }

    /// `getentropy`: too much at once is refused (`EIO`).
    pub fn get(&mut self, n: usize) -> (r: Option<Vec<u8>>)
        ensures
            match r {
                Some(b) => n <= MAX_ENTROPY && b@ == drawn(old(self)@.stream, n as nat)
                    && final(self)@ == old(self)@.after(n as nat),
                None => n > MAX_ENTROPY && final(self)@ == old(self)@,
            },
    {
        if n > MAX_ENTROPY {
            return None;
        }
        Some(self.fill(n))
    }
}

/// Entropy repeats with the seed: two processes with one seed draw the same
/// bytes.
pub proof fn entropy_repeats(a: Entropy, b: Entropy, seed: u64, n: nat)
    requires
        a@ == (EntropyView { stream: rng::expanded(seed ^ ENTROPY_STREAM), reseeded: false }),
        b@ == a@,
    ensures
        drawn(a@.stream, n) == drawn(b@.stream, n),
        a@.after(n) == b@.after(n),
{
}

/// What is drawn in whole words reads on where it stopped: two draws give
/// what one would.
pub proof fn draws_follow_each_other(s: Seq<u64>, words: nat, n: nat)
    ensures
        drawn(s, 8 * words + n) == drawn(s, 8 * words) + drawn(drawn_state(s, 8 * words), n),
        drawn_state(s, 8 * words + n) == drawn_state(drawn_state(s, 8 * words), n),
{
    let mid = drawn_state(s, 8 * words);
    assert((8 * words + 7) / 8 == words);
    assert forall|k: nat| rng::state_after(mid, k) == #[trigger] rng::state_after(s, words + k) by {
        lemma_state_after(s, words, k);
    }
    assert((8 * words + n + 7) / 8 == words + (n + 7) / 8);
    let whole = drawn(s, 8 * words + n);
    let parts = drawn(s, 8 * words) + drawn(mid, n);
    assert forall|i: int| 0 <= i < whole.len() implies whole[i] == parts[i] by {
        if i >= 8 * words {
            let j = i - 8 * words;
            assert(i / 8 == words + j / 8);
            assert(i % 8 == j % 8);
            assert(rng::state_after(mid, (j / 8) as nat) == rng::state_after(
                s,
                words + (j / 8) as nat,
            ));
        }
    }
    assert(whole =~= parts);
}

proof fn lemma_state_after(s: Seq<u64>, a: nat, b: nat)
    ensures
        rng::state_after(rng::state_after(s, a), b) == rng::state_after(s, a + b),
    decreases b,
{
    if b > 0 {
        lemma_state_after(s, a, (b - 1) as nat);
        assert(a + b - 1 == (a + b) - 1);
    }
}

/// Fixed wall-clock epoch offset so the real-time clock is repeatable too
pub const REALTIME_BASE_NS: u64 = 1_800_000_000_000_000_000;

pub const MONOTONIC_BASE_NS: u64 = 1_000_000_000;

pub const NS_PER_SEC: u64 = 1_000_000_000;

/// The clock a guest reads when the run's shows `now`
pub fn clock_ns(realtime: bool, now: u64) -> (r: u64)
    requires
        now + REALTIME_BASE_NS <= u64::MAX,
    ensures
        r == now + (if realtime {
            REALTIME_BASE_NS
        } else {
            MONOTONIC_BASE_NS
        }),
{
    if realtime {
        REALTIME_BASE_NS + now
    } else {
        MONOTONIC_BASE_NS + now
    }
}

/// Seconds and nanoseconds, as a `timespec` holds them
pub fn timespec(ns: u64) -> (r: (u64, u64))
    ensures
        r.0 * NS_PER_SEC + r.1 == ns,
        r.1 < NS_PER_SEC,
{
    (ns / NS_PER_SEC, ns % NS_PER_SEC)
}

/// Whole microseconds of a second
pub open spec fn micros(ns: u64) -> u64 {
    ns % NS_PER_SEC / 1000
}

/// Seconds and microseconds, as a `timeval` holds them
pub fn timeval(ns: u64) -> (r: (u64, u64))
    ensures
        r == (ns / NS_PER_SEC, micros(ns)),
        r.0 * NS_PER_SEC + r.1 * 1000 <= ns < r.0 * NS_PER_SEC + (r.1 + 1) * 1000,
        r.1 < 1_000_000,
{
    (ns / NS_PER_SEC, ns % NS_PER_SEC / 1000)
}

/// The nanoseconds of a `timeval`. Negative parts count as none.
pub open spec fn timeval_value(sec: i64, usec: i64) -> int {
    (if sec < 0 {
        0
    } else {
        sec as int
    }) * NS_PER_SEC + (if usec < 0 {
        0
    } else {
        usec as int
    }) * 1000
}

pub fn timeval_ns(sec: i64, usec: i64) -> (r: u64)
    requires
        timeval_value(sec, usec) <= u64::MAX,
    ensures
        r == timeval_value(sec, usec),
{
    let s: u64 = if sec < 0 {
        0
    } else {
        sec as u64
    };
    let u: u64 = if usec < 0 {
        0
    } else {
        usec as u64
    };
    s * NS_PER_SEC + u * 1000
}

/// The CPU's counter, of frequency `freq`, as the virtual clock would show
/// it
pub fn counter_ticks(ns: u64, freq: u64) -> (r: u64)
    requires
        ns * freq / (NS_PER_SEC as int) <= u64::MAX,
        (NS_PER_SEC - 1) * freq <= u64::MAX,
    ensures
        r == ns * freq / (NS_PER_SEC as int),
{
    let sec: u64 = ns / NS_PER_SEC;
    let rest: u64 = ns % NS_PER_SEC;
    proof {
        let s = sec as int;
        let q = rest as int;
        let f = freq as int;
        assert(ns * freq == (s * f) * 1_000_000_000 + q * f) by (nonlinear_arith)
            requires
                ns == s * 1_000_000_000 + q,
                f == freq,
        ;
        assert(0 <= q * f <= 999_999_999 * f) by (nonlinear_arith)
            requires
                0 <= q <= 999_999_999,
                0 <= f,
        ;
        assert(0 <= s * f) by (nonlinear_arith)
            requires
                0 <= s,
                0 <= f,
        ;
        assert((ns * freq) / 1_000_000_000 == s * f + (q * f) / 1_000_000_000);
    }
    sec * freq + rest * freq / NS_PER_SEC
}

/// Absolute time in ticks: the timebase is 125/3 (24 MHz).
pub fn mach_ticks(ns: u64) -> (r: u64)
    requires
        ns * 3 <= u64::MAX,
    ensures
        r == ns * 3 / 125,
{
    ns * 3 / 125
}

/// The interval timer of a process: a virtual deadline at which its alarm
/// becomes pending
#[derive(Debug, Clone, Copy, PartialEq, Eq, Structural)]
pub struct Alarm {
    /// 0 when it is not set
    pub at: u64,
    pub interval: u64,
}

impl Alarm {
    /// What is left until it goes off
    pub open spec fn left(self, now: u64) -> u64 {
        if self.at > now {
            (self.at - now) as u64
        } else {
            0
        }
    }

    /// After it has gone off: off, or set to its interval later
    pub open spec fn rung(self) -> Alarm {
        Alarm {
            at: if self.interval == 0 {
                0
            } else if self.at + self.interval > u64::MAX {
                u64::MAX
            } else {
                (self.at + self.interval) as u64
            },
            ..self
        }
    }

    /// It goes off.
    pub fn ring(&mut self)
        ensures
            *final(self) == old(self).rung(),
    {
        self.at = if self.interval == 0 {
            0
        } else {
            self.at.saturating_add(self.interval)
        };
    }

    pub fn new() -> (r: Self)
        ensures
            r == (Alarm { at: 0, interval: 0 }),
    {
        Alarm { at: 0, interval: 0 }
    }

    /// `getitimer`: what is left, and the interval
    pub fn get(&self, now: u64) -> (r: (u64, u64))
        ensures
            r == (self.left(now), self.interval),
    {
        if self.at > now {
            (self.at - now, self.interval)
        } else {
            (0, self.interval)
        }
    }

    /// `setitimer`: what was left before, and the interval. No value
    /// disarms it, and a value is at least a nanosecond away.
    pub fn set(&mut self, now: u64, value: u64, interval: u64) -> (r: (u64, u64))
        requires
            now + value < u64::MAX,
        ensures
            r == (old(self).left(now), old(self).interval),
            *final(self) == (if value == 0 {
                Alarm { at: 0, interval: 0 }
            } else {
                Alarm { at: (now + value) as u64, interval }
            }),
    {
        let before = self.get(now);
        if value == 0 {
            self.at = 0;
            self.interval = 0;
        } else {
            self.at = now + value;
            self.interval = interval;
        }
        before
    }

    /// `alarm`: the whole seconds that were left, with one more for a part
    pub fn alarm(&mut self, now: u64, secs: u32) -> (r: u64)
        requires
            now + secs * NS_PER_SEC < u64::MAX,
        ensures
            ({
                let left = old(self).left(now);
                r == left / NS_PER_SEC + (if micros(left) > 0 {
                    1int
                } else {
                    0
                })
            }),
            *final(self) == (if secs == 0 {
                Alarm { at: 0, interval: 0 }
            } else {
                Alarm { at: (now + secs * NS_PER_SEC) as u64, interval: 0 }
            }),
    {
        let (left, _) = self.set(now, secs as u64 * NS_PER_SEC, 0);
        let (sec, usec) = timeval(left);
        if usec > 0 {
            sec + 1
        } else {
            sec
        }
    }
}

/// A timer that was set shows what was asked for until time passes, and
/// setting it to nothing disarms it.
pub proof fn a_timer_reads_back(before: Alarm, set: Alarm, now: u64, value: u64, interval: u64)
    requires
        now + value < u64::MAX,
        set == (if value == 0 {
            Alarm { at: 0, interval: 0 }
        } else {
            Alarm { at: (now + value) as u64, interval }
        }),
    ensures
        set.left(now) == value,
        value != 0 ==> set.interval == interval,
        value == 0 ==> set.at == 0,
{
}

/// Descriptors open on a random device: reads of them come from the entropy
/// stream.
pub struct RandomFds {
    fds: Vec<i32>,
}

impl View for RandomFds {
    type V = Set<i32>;

    closed spec fn view(&self) -> Set<i32> {
        self.fds@.to_set()
    }
}

/// The path of a random device
pub open spec fn is_random_device(path: Seq<u8>) -> bool {
    path == environ::encoded("/dev/urandom"@) || path == environ::encoded("/dev/random"@)
}

impl RandomFds {
    pub fn new() -> (r: Self)
        ensures
            r@ == Set::<i32>::empty(),
    {
        let r = RandomFds { fds: Vec::new() };
        assert(r@ =~= Set::<i32>::empty());
        r
    }

    pub fn holds(&self, fd: i32) -> (r: bool)
        ensures
            r == self@.contains(fd),
    {
        let mut i: usize = 0;
        while i < self.fds.len()
            invariant
                i <= self.fds@.len(),
                forall|j: int| 0 <= j < i ==> self.fds@[j] != fd,
            decreases self.fds@.len() - i,
        {
            if self.fds[i] == fd {
                assert(self.fds@.contains(fd));
                return true;
            }
            i += 1;
        }
        false
    }

    /// A path was just opened as `fd`.
    pub fn opened(&mut self, path: &[u8], fd: i32)
        ensures
            final(self)@ == (if fd >= 0 && is_random_device(path@) {
                old(self)@.insert(fd)
            } else {
                old(self)@
            }),
    {
        if fd >= 0 && (same(path, "/dev/urandom".as_bytes()) || same(
            path,
            "/dev/random".as_bytes(),
        )) {
            self.put(fd);
        }
    }

    fn put(&mut self, fd: i32)
        ensures
            final(self)@ == old(self)@.insert(fd),
    {
        self.fds.push(fd);
        let ghost before = old(self).fds@;
        proof {
            assert forall|x: i32| self@.contains(x) == (old(self)@.contains(x) || x == fd) by {
                if before.contains(x) {
                    let i = choose|i: int| 0 <= i < before.len() && before[i] == x;
                    assert(self.fds@[i] == x);
                }
                if x == fd {
                    assert(self.fds@[before.len() as int] == x);
                }
            }
            assert(self@ =~= old(self)@.insert(fd));
        }
    }

    pub fn closed(&mut self, fd: i32)
        ensures
            final(self)@ == old(self)@.remove(fd),
    {
        let mut kept: Vec<i32> = Vec::new();
        let ghost before = self.fds@;
        let mut i: usize = 0;
        while i < self.fds.len()
            invariant
                i <= self.fds@.len(),
                self.fds@ == before,
                forall|x: i32|
                    #[trigger] kept@.contains(x) == (before.take(i as int).contains(x) && x != fd),
            decreases self.fds@.len() - i,
        {
            let one: i32 = self.fds[i];
            let ghost was = kept@;
            if one != fd {
                kept.push(one);
            }
            proof {
                let prefix = before.take(i as int);
                assert(before.take(i + 1) =~= prefix.push(one));
                assert forall|x: i32| #[trigger] kept@.contains(x) == (before.take(
                    i + 1,
                ).contains(x) && x != fd) by {
                    lemma_push(prefix, one, x);
                    lemma_push(was, one, x);
                    assert(was.contains(x) == (prefix.contains(x) && x != fd));
                }
            }
            i += 1;
        }
        assert(before.take(i as int) =~= before);
        self.fds = kept;
        assert forall|x: i32| self@.contains(x) == (old(self)@.contains(x) && x != fd) by {
            assert(kept@.contains(x) == (before.contains(x) && x != fd));
        }
        assert(self@ =~= old(self)@.remove(fd));
    }

    /// `new` is another name of `fd`.
    pub fn duplicated(&mut self, fd: i32, new: i32)
        ensures
            final(self)@ == (if old(self)@.contains(fd) {
                old(self)@.insert(new)
            } else {
                old(self)@
            }),
    {
        if self.holds(fd) {
            if self.holds(new) {
                assert(self@.insert(new) =~= self@);
            } else {
                self.put(new);
            }
        }
    }
}

proof fn lemma_push(s: Seq<i32>, y: i32, x: i32)
    ensures
        s.push(y).contains(x) == (s.contains(x) || x == y),
{
    let t = s.push(y);
    if s.contains(x) {
        let i = choose|i: int| 0 <= i < s.len() && s[i] == x;
        assert(t[i] == x);
    }
    if x == y {
        assert(t[s.len() as int] == x);
    }
}

/// Entropy is the outputs of the stream, one after the other, each from its
/// lowest byte on.
pub proof fn entropy_is_the_stream(s: Seq<u64>, n: nat, k: nat)
    requires
        8 * k + 8 <= n,
    ensures
        drawn(s, n).len() == n,
        drawn(s, n).subrange(8 * (k as int), 8 * (k as int) + 8) == bytes::le64(
            rng::output(rng::state_after(s, k)),
        ),
{
    let part = drawn(s, n).subrange(8 * (k as int), 8 * (k as int) + 8);
    let word = bytes::le64(rng::output(rng::state_after(s, k)));
    assert(word.len() == 8);
    assert forall|i: int| 0 <= i < 8 implies part[i] == word[i] by {
        assert((8 * k + i) / 8 == k);
        assert((8 * k + i) % 8 == i);
    }
    assert(part =~= word);
}

} // verus!
