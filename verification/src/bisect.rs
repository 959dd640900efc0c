//! Seed bisection: when was a failing run's failure decided?
//!
//! The failing seed is replayed with every random stream reseeded at
//! virtual time `t`. Up to `t` the run is the failing run; after it, some
//! other future. Once the damage is done nearly every future fails; before,
//! a future fails only as often as any run does. The probability of failure
//! as a function of `t` therefore steps up where the damage is done, and a
//! binary search over `t`, with many futures per probe, finds the step.
//!
//! A probe is a noisy measurement. With a base rate near 13% and 20
//! futures a wrong turn is practically impossible; at 50% about one search
//! in ten takes one, and the closer the base rate is to 1 the less there
//! is to find. `--runs` buys certainty.
//!
//! A `Search` says which probe to make next and takes what it measured;
//! making it, which takes many runs, is the caller's part.

use vstd::prelude::*;
use crate::replay::{Ending, EndingView};
use crate::text;
use crate::text::push_decimal;
use crate::units;
use crate::units::ms;
use crate::words;

verus! {

#[derive(Debug, Clone, Copy, PartialEq, Eq, Structural)]
pub struct Probe {
    pub at_ns: u64,
    pub runs: u32,
    pub failed: u32,
    /// Futures that failed some other way, or hung
    pub otherwise: u32,
}

/// A probe to make: `runs` futures from time `at_ns`. `round` picks another
/// set of replacement seeds for the same time.
#[derive(Debug, Clone, Copy, PartialEq, Eq, Structural)]
pub struct Order {
    pub at_ns: u64,
    pub runs: u32,
    pub round: u64,
}

/// What is measured now
#[derive(Debug, Clone, Copy, PartialEq, Eq, Structural)]
pub enum Phase {
    /// How often any run fails
    Base,
    /// Whether it is decided at all before the process dies
    Last,
    /// The middle of the interval
    Between,
    /// The ends once more, with futures not used before
    AgainLo,
    AgainHi,
    Done,
}

/// The numbers of a search
#[derive(Debug, Clone, Copy, PartialEq, Eq, Structural)]
pub struct Numbers {
    pub runs: u32,
    pub resolution_ns: u64,
    pub failure_at: u64,
    pub phase: Phase,
    pub base: Probe,
    /// Futures per probe
    pub per_probe: u32,
    pub base_failed: u32,
    /// Halfway between what any run does and certainty
    pub threshold: u32,
    /// Still open at `lo`, decided by `hi`
    pub lo_ns: u64,
    pub lo_failed: u32,
    pub hi_ns: u64,
    pub hi_failed: Option<u32>,
    /// The endpoints measured again with other futures disagree
    pub unsure: bool,
}

pub open spec fn no_probe() -> Probe {
    Probe { at_ns: 0, runs: 0, failed: 0, otherwise: 0 }
}

/// How many futures per probe: the nearer the base rate is to certainty,
/// the less a probe tells.
pub open spec fn futures(runs: u32, base_failed: u32) -> u32 {
    let quarter = (base_failed * 4) / (runs as int);
    (runs * (if quarter == 0 {
        1
    } else if quarter == 1 {
        2
    } else {
        4int
    })) as u32
}

impl Numbers {
    pub open spec fn start(runs: u32, resolution_ns: u64, failure_at: u64) -> Numbers {
        Numbers {
            runs,
            resolution_ns: if resolution_ns == 0 {
                1
            } else {
                resolution_ns
            },
            failure_at,
            phase: Phase::Base,
            base: no_probe(),
            per_probe: runs,
            base_failed: 0,
            threshold: 0,
            lo_ns: 0,
            lo_failed: 0,
            hi_ns: 0,
            hi_failed: None,
            unsure: false,
        }
    }

    /// The last moment to look at before the process dies
    pub open spec fn end(self) -> u64 {
        if self.failure_at < self.resolution_ns {
            0
        } else {
            (self.failure_at - self.resolution_ns) as u64
        }
    }

    pub open spec fn decided(self, p: Probe) -> bool {
        p.failed >= self.threshold
    }

    /// The probe to make next
    pub open spec fn order(self) -> Option<Order> {
        let runs = self.per_probe;
        match self.phase {
            Phase::Base => Some(Order { at_ns: 0, runs: self.runs, round: 0 }),
            Phase::Last => Some(Order { at_ns: self.end(), runs, round: 0 }),
            Phase::Between => Some(
                Order {
                    at_ns: (self.lo_ns + (self.hi_ns - self.lo_ns) / 2) as u64,
                    runs,
                    round: 0,
                },
            ),
            Phase::AgainLo => Some(Order { at_ns: self.lo_ns, runs, round: 1 }),
            Phase::AgainHi => Some(Order { at_ns: self.hi_ns, runs, round: 1 }),
            Phase::Done => None,
        }
    }

    /// The failure does not depend on anything random enough to have a
    /// moment.
    pub open spec fn hopeless(self, p: Probe) -> bool {
        p.failed * 5 >= self.runs * 4
    }

    /// With the base rate
    pub open spec fn with_base(self, p: Probe) -> Numbers {
        let per_probe = futures(self.runs, p.failed);
        let base_failed = (p.failed * per_probe / (self.runs as int)) as u32;
        Numbers {
            phase: Phase::Last,
            base: p,
            per_probe,
            base_failed,
            threshold: ((base_failed + per_probe + 1) / 2) as u32,
            ..self
        }
    }

    /// On to the middle of the interval, or, where that is short enough, to
    /// measuring its ends again
    pub open spec fn onward(self) -> Numbers {
        if self.hi_ns - self.lo_ns > self.resolution_ns {
            Numbers { phase: Phase::Between, ..self }
        } else if self.lo_ns == 0 || (self.lo_ns == self.hi_ns && self.hi_failed is None) {
            self.past_lo()
        } else {
            Numbers { phase: Phase::AgainLo, ..self }
        }
    }

    pub open spec fn past_lo(self) -> Numbers {
        Numbers {
            phase: if self.hi_failed is None {
                Phase::Done
            } else {
                Phase::AgainHi
            },
            ..self
        }
    }

    /// With the interval that the last probe leaves
    pub open spec fn with_last(self, p: Probe) -> Numbers {
        let s = if self.decided(p) {
            Numbers {
                lo_ns: 0,
                lo_failed: self.base_failed,
                hi_ns: self.end(),
                hi_failed: Some(p.failed),
                ..self
            }
        } else {
            Numbers {
                lo_ns: self.end(),
                lo_failed: p.failed,
                hi_ns: self.failure_at,
                hi_failed: None,
                ..self
            }
        };
        s.onward()
    }

    /// With one half of the interval
    pub open spec fn with_middle(self, p: Probe) -> Numbers {
        let s = if self.decided(p) {
            Numbers { hi_ns: p.at_ns, hi_failed: Some(p.failed), ..self }
        } else {
            Numbers { lo_ns: p.at_ns, lo_failed: p.failed, ..self }
        };
        s.onward()
    }

    /// An end holds up when it is measured again.
    pub open spec fn holds(self, p: Probe) -> bool {
        self.decided(p) == (self.phase == Phase::AgainHi)
    }

    /// With what the probe measured
    pub open spec fn measured(self, p: Probe) -> Numbers {
        match self.phase {
            Phase::Base => self.with_base(p),
            Phase::Last => self.with_last(p),
            Phase::Between => self.with_middle(p),
            Phase::AgainLo => (Numbers {
                unsure: self.unsure || !self.holds(p),
                ..self
            }).past_lo(),
            Phase::AgainHi => Numbers {
                unsure: self.unsure || !self.holds(p),
                phase: Phase::Done,
                ..self
            },
            Phase::Done => self,
        }
    }

    /// The interval is one, its lower end is still open and its upper end
    /// decided. Fewer than four fifths of the futures fail from the start.
    pub open spec fn wf(self) -> bool {
        &&& 0 < self.runs <= u32::MAX / 4
        &&& self.resolution_ns > 0
        &&& self.failure_at > 0
        &&& self.phase != Phase::Base ==> {
            &&& self.runs <= self.per_probe <= 4 * self.runs
            &&& self.base_failed < self.threshold <= self.per_probe
            &&& self.base.failed * 5 < self.runs * 4
        }
        &&& self.phase != Phase::Base && self.phase != Phase::Last ==> {
            &&& self.lo_ns <= self.hi_ns <= self.failure_at
            &&& self.lo_failed < self.threshold
            &&& self.hi_failed matches Some(n) ==> n >= self.threshold
            &&& self.hi_failed is None ==> self.hi_ns == self.failure_at && self.lo_ns < self.hi_ns
        }
        &&& self.phase == Phase::Between ==> self.hi_ns - self.lo_ns > self.resolution_ns
        &&& self.phase == Phase::AgainLo || self.phase == Phase::AgainHi || self.phase == Phase::Done
            ==> self.hi_ns - self.lo_ns <= self.resolution_ns
    }
}

proof fn lemma_base(n: Numbers, p: Probe)
    requires
        n.wf(),
        n.phase == Phase::Base,
        p.failed <= n.runs,
        !n.hopeless(p),
    ensures
        n.with_base(p).wf(),
        p.failed * 4 / (n.runs as int) <= 4,
        p.failed * futures(n.runs, p.failed) / (n.runs as int) < futures(n.runs, p.failed),
{
    let k = futures(n.runs, p.failed);
    assert(0 <= p.failed * 4 / (n.runs as int) <= 4) by (nonlinear_arith)
        requires
            0 <= p.failed <= n.runs,
            n.runs > 0,
    ;
    assert(0 <= p.failed * k / (n.runs as int) < k) by (nonlinear_arith)
        requires
            0 <= p.failed < n.runs,
            n.runs > 0,
            k > 0,
    ;
}

/// A search keeps its interval: whatever a probe measures, the lower end
/// stays open and the upper end decided, and every probe between them leaves
/// at most half of the interval and one.
pub proof fn the_interval_closes_in(n: Numbers, p: Probe)
    requires
        n.wf(),
        n.order() matches Some(o) && p.at_ns == o.at_ns,
        p.failed <= n.per_probe || n.phase == Phase::Base,
        n.phase == Phase::Base ==> p.failed <= n.runs && !n.hopeless(p),
    ensures
        n.measured(p).wf(),
        n.phase == Phase::Between ==> n.measured(p).hi_ns - n.measured(p).lo_ns <= (n.hi_ns
            - n.lo_ns) / 2 + 1 && n.measured(p).hi_ns - n.measured(p).lo_ns < n.hi_ns - n.lo_ns,
        n.phase == Phase::Between ==> n.lo_ns <= n.measured(p).lo_ns && n.measured(p).hi_ns
            <= n.hi_ns,
{
    if n.phase == Phase::Base {
        lemma_base(n, p);
    }
}

/// A finished search has an interval as short as was asked for.
pub proof fn a_finished_search_is_as_sharp_as_asked(n: Numbers)
    requires
        n.wf(),
        n.order() is None,
    ensures
        n.hi_ns - n.lo_ns <= n.resolution_ns,
        n.lo_failed < n.threshold,
        n.hi_failed matches Some(k) ==> k >= n.threshold,
{
}

/// A search, and what there is to say of it so far
pub struct Search {
    pub seed: u64,
    pub numbers: Numbers,
    pub probes: Vec<Probe>,
    pub lines: Vec<String>,
}

/// Why there is nothing to find
#[derive(Debug)]
pub enum Error {
    NoFutures,
    DoesNotFail(u64),
    NoTime,
    /// So many of so many futures fail even when reseeded at the start
    Hopeless(u32, u32),
}

impl Error {
    pub open spec fn told(self) -> Seq<char> {
        match self {
            Error::NoFutures => "--runs 0: a probe needs futures"@,
            Error::DoesNotFail(seed) => "seed "@ + text::decimal(seed as nat)
                + " does not fail: nothing to bisect"@,
            Error::NoTime => "the report does not say when the failing process died"@,
            Error::Hopeless(failed, runs) => text::decimal(failed as nat) + " of "@
                + text::decimal(runs as nat)
                + " futures fail even when reseeded at the start: this failure does not depend on anything random enough to have a moment"@,
        }
    }

    /// What to tell of it
    pub fn message(&self) -> (r: String)
        ensures
            r@ == self.told(),
    {
        let mut out = String::new();
        match self {
            Error::NoFutures => {
                out.append("--runs 0: a probe needs futures");
            },
            Error::DoesNotFail(seed) => {
                out.append("seed ");
                push_decimal(&mut out, *seed);
                out.append(" does not fail: nothing to bisect");
            },
            Error::NoTime => {
                out.append("the report does not say when the failing process died");
            },
            Error::Hopeless(failed, runs) => {
                push_decimal(&mut out, *failed as u64);
                out.append(" of ");
                push_decimal(&mut out, *runs as u64);
                out.append(
                    " futures fail even when reseeded at the start: this failure does not depend on anything random enough to have a moment",
                );
            },
        }
        assert(out@ =~= self.told());
        out
    }
}

/// The replacement seed of future `k` of a probe
pub open spec fn replacement(at: u64, round: u64, k: u64) -> u64 {
    at.wrapping_mul(0x9E37_79B9_7F4A_7C15) ^ round.wrapping_mul(0xD1B5_4A32_D192_ED03)
        ^ k.wrapping_add(1)
}

/// The replacement seed of future `k` of a probe
pub fn replacement_seed(order: &Order, k: u64) -> (r: u64)
    ensures
        r == replacement(order.at_ns, order.round, k),
{
    order.at_ns.wrapping_mul(0x9E37_79B9_7F4A_7C15) ^ order.round.wrapping_mul(
        0xD1B5_4A32_D192_ED03,
    ) ^ k.wrapping_add(1)
}

/// How many of the first `n` runs end as the reference did
pub open spec fn alike(endings: Seq<Ending>, reference: EndingView, n: int) -> int
    decreases n,
{
    if n <= 0 {
        0
    } else {
        alike(endings, reference, n - 1) + (if endings[n - 1]@.fails_like(reference) {
            1int
        } else {
            0
        })
    }
}

/// How many of the first `n` runs fail some other way, or hang
pub open spec fn differing(endings: Seq<Ending>, reference: EndingView, n: int) -> int
    decreases n,
{
    if n <= 0 {
        0
    } else {
        let e = endings[n - 1]@;
        differing(endings, reference, n - 1) + (if !e.fails_like(reference) && (e.failure is Some
            || e.timed_out) {
            1int
        } else {
            0
        })
    }
}

/// What the runs of a probe measured
pub fn measure(order: &Order, reference: &Ending, endings: &Vec<Ending>) -> (r: Probe)
    requires
        endings@.len() <= u32::MAX,
    ensures
        r.at_ns == order.at_ns,
        r.runs == order.runs,
        r.failed == alike(endings@, reference@, endings@.len() as int),
        r.otherwise == differing(endings@, reference@, endings@.len() as int),
        r.failed + r.otherwise <= endings@.len(),
{
    let mut failed: u32 = 0;
    let mut otherwise: u32 = 0;
    let mut i: usize = 0;
    while i < endings.len()
        invariant
            i <= endings@.len() <= u32::MAX,
            failed == alike(endings@, reference@, i as int),
            otherwise == differing(endings@, reference@, i as int),
            failed + otherwise <= i,
        decreases endings@.len() - i,
    {
        let e = &endings[i];
        if e.fails_like(reference) {
            failed += 1;
        } else if e.failure.is_some() || e.timed_out {
            otherwise += 1;
        }
        i += 1;
    }
    Probe { at_ns: order.at_ns, runs: order.runs, failed, otherwise }
}

/// `n` spaces
pub open spec fn spaces(n: int) -> Seq<char> {
    Seq::new(
        if n < 0 {
            0
        } else {
            n as nat
        },
        |i: int| ' ',
    )
}

/// A text moved to the right of a column
pub open spec fn right(s: Seq<char>, width: int) -> Seq<char> {
    spaces(width - s.len()) + s
}

fn push_right(out: &mut String, s: &str, width: usize)
    ensures
        final(out)@ == old(out)@ + right(s@, width as int),
{
    let n: usize = text::chars_of(s).len();
    let missing: usize = if n < width {
        width - n
    } else {
        0
    };
    let mut i: usize = 0;
    assert(out@ =~= old(out)@ + spaces(0));
    while i < missing
        invariant
            i <= missing,
            out@ == old(out)@ + spaces(i as int),
        decreases missing - i,
    {
        out.push(' ');
        i += 1;
        assert(out@ =~= old(out)@ + spaces(i as int));
    }
    out.append(s);
    assert(spaces(missing as int) =~= spaces(width - n));
    assert(out@ =~= old(out)@ + right(s@, width as int));
}

/// What is said of a probe
pub open spec fn said(p: Probe, what: Seq<char>) -> Seq<char> {
    "probe "@ + right(units::milliseconds(p.at_ns), 12) + ": "@ + right(
        text::decimal(p.failed as nat),
        3,
    ) + " of "@ + text::decimal(p.runs as nat) + " fail"@ + (if p.otherwise > 0 {
        ", "@ + text::decimal(p.otherwise as nat) + " end some other way"@
    } else {
        Seq::empty()
    }) + "  "@ + what
}

fn say(p: &Probe, what: &str) -> (r: String)
    ensures
        r@ == said(*p, what@),
{
    let mut out = String::new();
    out.append("probe ");
    push_right(&mut out, ms(p.at_ns).as_str(), 12);
    out.append(": ");
    let mut failed = String::new();
    push_decimal(&mut failed, p.failed as u64);
    assert(failed@ =~= text::decimal(p.failed as nat));
    push_right(&mut out, failed.as_str(), 3);
    out.append(" of ");
    push_decimal(&mut out, p.runs as u64);
    out.append(" fail");
    if p.otherwise > 0 {
        out.append(", ");
        push_decimal(&mut out, p.otherwise as u64);
        out.append(" end some other way");
    }
    out.append("  ");
    out.append(what);
    assert(out@ =~= said(*p, what@));
    out
}

/// The lines of a trace within an interval
pub open spec fn within(lines: Seq<(u64, Seq<char>)>, lo: u64, hi: u64, n: int) -> Seq<Seq<char>>
    decreases n,
{
    if n <= 0 {
        Seq::empty()
    } else if lo <= lines[n - 1].0 <= hi {
        within(lines, lo, hi, n - 1).push(lines[n - 1].1)
    } else {
        within(lines, lo, hi, n - 1)
    }
}

pub open spec fn clocked_lines(v: Seq<(u64, String)>) -> Seq<(u64, Seq<char>)> {
    v.map_values(|p: (u64, String)| (p.0, p.1@))
}

/// The switches of the failing run in an interval
pub fn in_interval(trace: &Vec<(u64, String)>, lo: u64, hi: u64) -> (r: Vec<String>)
    ensures
        words::texts(r@) == within(clocked_lines(trace@), lo, hi, trace@.len() as int),
{
    let mut out: Vec<String> = Vec::new();
    let mut i: usize = 0;
    assert(words::texts(out@) =~= Seq::<Seq<char>>::empty());
    while i < trace.len()
        invariant
            i <= trace@.len(),
            words::texts(out@) == within(clocked_lines(trace@), lo, hi, i as int),
        decreases trace@.len() - i,
    {
        if lo <= trace[i].0 && trace[i].0 <= hi {
            let ghost was = out@;
            let line = trace[i].1.clone();
            out.push(line);
            assert(words::texts(out@) =~= words::texts(was).push(line@));
        }
        i += 1;
    }
    out
}

/// What is said at the start
pub open spec fn opening(seed: u64, entry: u64, status: Seq<char>, at: u64) -> Seq<char> {
    "reference: seed "@ + text::decimal(seed as nat) + " fails (entry "@ + text::decimal(
        entry as nat,
    ) + ": "@ + status + ") at "@ + units::milliseconds(at)
}

/// What is said of the base rate
pub open spec fn base_rate(failed: u32, runs: u32) -> Seq<char> {
    "base rate: "@ + text::decimal(failed as nat) + " of "@ + text::decimal(runs as nat)
        + " futures from the start fail the same way"@
}

pub open spec fn high_rate(runs: u32) -> Seq<char> {
    "the base rate is high: "@ + text::decimal(runs as nat) + " futures per probe"@
}

/// What is said at the end
pub open spec fn closing(n: Numbers) -> Seq<Seq<char>> {
    let step = "the failure is decided between "@ + units::milliseconds(n.lo_ns) + " and "@
        + units::milliseconds(n.hi_ns) + " ("@ + text::decimal(n.lo_failed as nat) + " of "@
        + text::decimal(n.per_probe as nat) + " fail before, "@ + (match n.hi_failed {
        Some(k) => text::decimal(k as nat) + " after"@,
        None => "it is only decided as the process dies"@,
    }) + ")"@;
    if n.unsure {
        seq![step, "the step is not sharp at this many futures: try more --runs"@]
    } else {
        seq![step]
    }
}

/// What is said of what a probe measured
pub open spec fn remarks(n: Numbers, p: Probe) -> Seq<Seq<char>> {
    let after = n.measured(p);
    let of_probe = match n.phase {
        Phase::Base => if after.per_probe > n.runs {
            seq![base_rate(p.failed, n.runs), high_rate(after.per_probe)]
        } else {
            seq![base_rate(p.failed, n.runs)]
        },
        Phase::Last | Phase::Between => seq![
            said(
                p,
                if n.decided(p) {
                    "decided by then"@
                } else {
                    "still open"@
                },
            ),
        ],
        Phase::AgainLo | Phase::AgainHi => seq![
            said(
                p,
                if n.holds(p) {
                    "again, agrees"@
                } else {
                    "again, DISAGREES"@
                },
            ),
        ],
        Phase::Done => Seq::empty(),
    };
    if after.phase == Phase::Done && n.phase != Phase::Done {
        of_probe + closing(after)
    } else {
        of_probe
    }
}

fn base_line(failed: u32, runs: u32) -> (r: String)
    ensures
        r@ == base_rate(failed, runs),
{
    let mut out = String::new();
    out.append("base rate: ");
    push_decimal(&mut out, failed as u64);
    out.append(" of ");
    push_decimal(&mut out, runs as u64);
    out.append(" futures from the start fail the same way");
    assert(out@ =~= base_rate(failed, runs));
    out
}

fn high_line(runs: u32) -> (r: String)
    ensures
        r@ == high_rate(runs),
{
    let mut out = String::new();
    out.append("the base rate is high: ");
    push_decimal(&mut out, runs as u64);
    out.append(" futures per probe");
    assert(out@ =~= high_rate(runs));
    out
}

fn step_line(n: &Numbers) -> (r: String)
    ensures
        r@ == closing(*n)[0],
{
    let mut out = String::new();
    out.append("the failure is decided between ");
    out.append(ms(n.lo_ns).as_str());
    out.append(" and ");
    out.append(ms(n.hi_ns).as_str());
    out.append(" (");
    push_decimal(&mut out, n.lo_failed as u64);
    out.append(" of ");
    push_decimal(&mut out, n.per_probe as u64);
    out.append(" fail before, ");
    match n.hi_failed {
        Some(k) => {
            push_decimal(&mut out, k as u64);
            out.append(" after");
        },
        None => {
            out.append("it is only decided as the process dies");
        },
    }
    out.append(")");
    assert(out@ =~= closing(*n)[0]);
    out
}

impl Numbers {
    /// The last moment to look at before the process dies
    fn last_moment(&self) -> (r: u64)
        ensures
            r == self.end(),
    {
        if self.failure_at < self.resolution_ns {
            0
        } else {
            self.failure_at - self.resolution_ns
        }
    }

    fn go_past_lo(&mut self)
        ensures
            *final(self) == old(self).past_lo(),
    {
        self.phase = match self.hi_failed {
            None => Phase::Done,
            Some(_) => Phase::AgainHi,
        };
    }

    fn go_on(&mut self)
        requires
            old(self).lo_ns <= old(self).hi_ns,
        ensures
            *final(self) == old(self).onward(),
    {
        if self.hi_ns - self.lo_ns > self.resolution_ns {
            self.phase = Phase::Between;
        } else if self.lo_ns == 0 || (self.lo_ns == self.hi_ns && self.hi_failed.is_none()) {
            self.go_past_lo();
        } else {
            self.phase = Phase::AgainLo;
        }
    }

    fn take_base(&mut self, p: &Probe)
        requires
            old(self).wf(),
            old(self).phase == Phase::Base,
            p.failed <= old(self).runs,
            !old(self).hopeless(*p),
        ensures
            *final(self) == old(self).with_base(*p),
    {
        proof {
            lemma_base(*self, *p);
        }
        let quarter: u64 = p.failed as u64 * 4 / self.runs as u64;
        let factor: u32 = if quarter == 0 {
            1
        } else if quarter == 1 {
            2
        } else {
            4
        };
        self.per_probe = self.runs * factor;
        assert(0 <= p.failed * self.per_probe <= u64::MAX) by (nonlinear_arith)
            requires
                p.failed <= u32::MAX,
                self.per_probe <= u32::MAX,
        ;
        self.base_failed = (p.failed as u64 * self.per_probe as u64 / self.runs as u64) as u32;
        self.threshold = ((self.base_failed as u64 + self.per_probe as u64 + 1) / 2) as u32;
        self.base = *p;
        self.phase = Phase::Last;
    }

    fn take_last(&mut self, p: &Probe)
        requires
            old(self).wf(),
            old(self).phase == Phase::Last,
        ensures
            *final(self) == old(self).with_last(*p),
    {
        let end: u64 = self.last_moment();
        if p.failed >= self.threshold {
            self.lo_ns = 0;
            self.lo_failed = self.base_failed;
            self.hi_ns = end;
            self.hi_failed = Some(p.failed);
        } else {
            self.lo_ns = end;
            self.lo_failed = p.failed;
            self.hi_ns = self.failure_at;
            self.hi_failed = None;
        }
        self.go_on();
    }

    fn take_middle(&mut self, p: &Probe)
        requires
            old(self).wf(),
            old(self).phase == Phase::Between,
            old(self).lo_ns <= p.at_ns <= old(self).hi_ns,
        ensures
            *final(self) == old(self).with_middle(*p),
    {
        if p.failed >= self.threshold {
            self.hi_ns = p.at_ns;
            self.hi_failed = Some(p.failed);
        } else {
            self.lo_ns = p.at_ns;
            self.lo_failed = p.failed;
        }
        self.go_on();
    }
}

impl Search {
    pub open spec fn wf(self) -> bool {
        self.numbers.wf()
    }

    /// A search for the moment at which the failure of the reference run was
    /// decided, or why there is none
    pub fn start(seed: u64, runs: u32, resolution_ns: u64, reference: &Ending) -> (r: Result<
        Search,
        Error,
    >)
        requires
            runs <= u32::MAX / 4,
        ensures
            match r {
                Ok(s) => {
                    &&& runs > 0
                    &&& reference@.failure matches Some((entry, status))
                    &&& reference.failure_at > 0
                    &&& s.wf()
                    &&& s.seed == seed
                    &&& s.numbers == Numbers::start(runs, resolution_ns, reference.failure_at)
                    &&& s.probes@ == Seq::<Probe>::empty()
                    &&& words::texts(s.lines@) == seq![
                        opening(seed, entry, status, reference.failure_at),
                    ]
                },
                Err(Error::NoFutures) => runs == 0,
                Err(Error::DoesNotFail(s)) => runs > 0 && s == seed && reference.failure is None,
                Err(Error::NoTime) => runs > 0 && reference.failure is Some && reference.failure_at
                    == 0,
                Err(_) => false,
            },
    {
        if runs == 0 {
            return Err(Error::NoFutures);
        }
        let mut out = String::new();
        match &reference.failure {
            None => {
                return Err(Error::DoesNotFail(seed));
            },
            Some((entry, status)) => {
                out.append("reference: seed ");
                push_decimal(&mut out, seed);
                out.append(" fails (entry ");
                push_decimal(&mut out, *entry);
                out.append(": ");
                out.append(status.as_str());
                out.append(") at ");
                out.append(ms(reference.failure_at).as_str());
                assert(out@ =~= opening(seed, *entry, status@, reference.failure_at));
            },
        }
        if reference.failure_at == 0 {
            return Err(Error::NoTime);
        }
        let numbers = Numbers {
            runs,
            resolution_ns: if resolution_ns == 0 {
                1
            } else {
                resolution_ns
            },
            failure_at: reference.failure_at,
            phase: Phase::Base,
            base: Probe { at_ns: 0, runs: 0, failed: 0, otherwise: 0 },
            per_probe: runs,
            base_failed: 0,
            threshold: 0,
            lo_ns: 0,
            lo_failed: 0,
            hi_ns: 0,
            hi_failed: None,
            unsure: false,
        };
        let mut lines: Vec<String> = Vec::new();
        let ghost first = out@;
        lines.push(out);
        assert(words::texts(lines@) =~= seq![first]);
        Ok(Search { seed, numbers, probes: Vec::new(), lines })
    }

    /// The probe to make next; None when the search is done
    pub fn next(&self) -> (r: Option<Order>)
        requires
            self.wf(),
        ensures
            r == self.numbers.order(),
    {
        let n = self.numbers;
        let runs: u32 = n.per_probe;
        match n.phase {
            Phase::Base => Some(Order { at_ns: 0, runs: n.runs, round: 0 }),
            Phase::Last => Some(Order { at_ns: n.last_moment(), runs, round: 0 }),
            Phase::Between => Some(
                Order { at_ns: n.lo_ns + (n.hi_ns - n.lo_ns) / 2, runs, round: 0 },
            ),
            Phase::AgainLo => Some(Order { at_ns: n.lo_ns, runs, round: 1 }),
            Phase::AgainHi => Some(Order { at_ns: n.hi_ns, runs, round: 1 }),
            Phase::Done => None,
        }
    }

    fn remark(&mut self, line: String)
        ensures
            words::texts(final(self).lines@) == words::texts(old(self).lines@).push(line@),
            final(self).numbers == old(self).numbers,
            final(self).probes == old(self).probes,
            final(self).seed == old(self).seed,
    {
        let ghost was = self.lines@;
        self.lines.push(line);
        assert(words::texts(self.lines@) =~= words::texts(was).push(line@));
    }

    /// Go on with what a probe measured.
    pub fn take(&mut self, p: Probe) -> (r: Result<(), Error>)
        requires
            old(self).wf(),
            old(self).numbers.order() matches Some(o) && p.at_ns == o.at_ns && p.failed <= o.runs,
        ensures
            final(self).seed == old(self).seed,
            match r {
                Err(e) => {
                    &&& old(self).numbers.phase == Phase::Base
                    &&& old(self).numbers.hopeless(p)
                    &&& e == Error::Hopeless(p.failed, old(self).numbers.runs)
                    &&& final(self).numbers == old(self).numbers
                    &&& final(self).probes == old(self).probes
                    &&& words::texts(final(self).lines@) == words::texts(old(self).lines@).push(
                        base_rate(p.failed, old(self).numbers.runs),
                    )
                },
                Ok(_) => {
                    &&& !(old(self).numbers.phase == Phase::Base && old(self).numbers.hopeless(p))
                    &&& final(self).wf()
                    &&& final(self).numbers == old(self).numbers.measured(p)
                    &&& final(self).probes@ == (if old(self).numbers.phase == Phase::Base {
                        old(self).probes@
                    } else {
                        old(self).probes@.push(p)
                    })
                    &&& words::texts(final(self).lines@) == words::texts(old(self).lines@)
                        + remarks(old(self).numbers, p)
                },
            },
    {
        let ghost was = self.numbers;
        let ghost before = words::texts(self.lines@);
        let phase: Phase = self.numbers.phase;
        match phase {
            Phase::Base => {
                self.remark(base_line(p.failed, self.numbers.runs));
                if p.failed as u64 * 5 >= self.numbers.runs as u64 * 4 {
                    return Err(Error::Hopeless(p.failed, self.numbers.runs));
                }
                proof {
                    the_interval_closes_in(was, p);
                }
                self.numbers.take_base(&p);
                if self.numbers.per_probe > self.numbers.runs {
                    self.remark(high_line(self.numbers.per_probe));
                }
                assert(words::texts(self.lines@) =~= before + remarks(was, p));
                return Ok(());
            },
            Phase::Last => {
                let line = say(
                    &p,
                    if p.failed >= self.numbers.threshold {
                        "decided by then"
                    } else {
                        "still open"
                    },
                );
                self.remark(line);
                self.numbers.take_last(&p);
            },
            Phase::Between => {
                let line = say(
                    &p,
                    if p.failed >= self.numbers.threshold {
                        "decided by then"
                    } else {
                        "still open"
                    },
                );
                self.remark(line);
                self.numbers.take_middle(&p);
            },
            _ => {
                let expect: bool = match phase {
                    Phase::AgainHi => true,
                    _ => false,
                };
                let holds: bool = (p.failed >= self.numbers.threshold) == expect;
                let line = say(
                    &p,
                    if holds {
                        "again, agrees"
                    } else {
                        "again, DISAGREES"
                    },
                );
                self.remark(line);
                if !holds {
                    self.numbers.unsure = true;
                }
                if expect {
                    self.numbers.phase = Phase::Done;
                } else {
                    self.numbers.go_past_lo();
                }
            },
        }
        proof {
            the_interval_closes_in(was, p);
        }
        self.probes.push(p);
        let done: bool = match self.numbers.phase {
            Phase::Done => true,
            _ => false,
        };
        if done {
            self.remark(step_line(&self.numbers));
            if self.numbers.unsure {
                self.remark(
                    "the step is not sharp at this many futures: try more --runs".to_owned(),
                );
            }
        }
        assert(words::texts(self.lines@) =~= before + remarks(was, p));
        Ok(())
    }
}

/// A probe asks for the middle, and what it measures moves the end it speaks
/// of: where enough futures fail, the failure is decided by then, else it is
/// still open.
pub proof fn a_probe_moves_the_end_it_speaks_of(n: Numbers, p: Probe)
    requires
        n.wf(),
        n.phase == Phase::Between,
        n.order() matches Some(o) && p.at_ns == o.at_ns,
        p.failed <= n.per_probe,
    ensures
        n.order() matches Some(o) && 2 * o.at_ns <= n.lo_ns + n.hi_ns < 2 * o.at_ns + 2 && o.runs
            == n.per_probe,
        n.lo_ns < p.at_ns < n.hi_ns,
        p.failed >= n.threshold ==> n.measured(p).hi_ns == p.at_ns && n.measured(p).hi_failed
            == Some(p.failed) && n.measured(p).lo_ns == n.lo_ns && n.measured(p).lo_failed
            == n.lo_failed,
        p.failed < n.threshold ==> n.measured(p).lo_ns == p.at_ns && n.measured(p).lo_failed
            == p.failed && n.measured(p).hi_ns == n.hi_ns && n.measured(p).hi_failed
            == n.hi_failed,
{
}

/// Certainty is told from what any run does halfway between the two: the
/// threshold is the middle of the base rate and all futures, and the more
/// futures fail from the start, the more are run per probe.
#[verifier::rlimit(40)]
pub proof fn the_threshold_is_halfway(n: Numbers, p: Probe)
    requires
        n.wf(),
        n.phase == Phase::Base,
        p.failed * 5 < n.runs * 4,
    ensures
        ({
            let after = n.measured(p);
            &&& 4 * p.failed < n.runs ==> after.per_probe == n.runs
            &&& n.runs <= 4 * p.failed < 2 * n.runs ==> after.per_probe == 2 * n.runs
            &&& 2 * n.runs <= 4 * p.failed ==> after.per_probe == 4 * n.runs
            &&& after.base_failed * n.runs <= p.failed * after.per_probe < (after.base_failed + 1)
                * n.runs
            &&& after.base_failed + after.per_probe <= 2 * after.threshold <= after.base_failed
                + after.per_probe + 1
            &&& after.base == p
            &&& after.phase == Phase::Last
        }),
{
    let r = n.runs as int;
    let f = p.failed as int;
    let q = (f * 4) / r;
    assert(q * r <= f * 4 < (q + 1) * r) by (nonlinear_arith)
        requires
            q == (f * 4) / r,
            r > 0,
            f >= 0,
    ;
    assert(0 <= q <= 3) by (nonlinear_arith)
        requires
            q * r <= f * 4 < (q + 1) * r,
            0 <= f,
            f * 5 < r * 4,
            r > 0,
    ;
    assert(q == 0 ==> f * 4 < r) by (nonlinear_arith)
        requires
            f * 4 < (q + 1) * r,
    ;
    assert(q == 1 ==> r <= f * 4 < 2 * r) by (nonlinear_arith)
        requires
            q * r <= f * 4 < (q + 1) * r,
    ;
    assert(q >= 2 ==> 2 * r <= f * 4) by (nonlinear_arith)
        requires
            q * r <= f * 4,
            r > 0,
    ;
    let k = futures(n.runs, p.failed) as int;
    let b = f * k / r;
    assert(b * r <= f * k < (b + 1) * r) by (nonlinear_arith)
        requires
            b == f * k / r,
            r > 0,
            f >= 0,
            k >= 0,
    ;
    assert(0 <= b < k) by (nonlinear_arith)
        requires
            b * r <= f * k < (b + 1) * r,
            0 <= f < r,
            k > 0,
            r > 0,
    ;
}

/// Before the search the last moment is measured: decided by then, the failure
/// lies somewhere before; still open, it lies between then and the death.
pub proof fn the_last_moment_opens_the_interval(n: Numbers, p: Probe)
    requires
        n.wf(),
        n.phase == Phase::Last,
        n.order() matches Some(o) && p.at_ns == o.at_ns,
        p.failed <= n.per_probe,
    ensures
        n.order() matches Some(o) && (n.failure_at >= n.resolution_ns ==> o.at_ns == n.failure_at
            - n.resolution_ns),
        p.failed >= n.threshold ==> n.measured(p).lo_ns == 0 && n.measured(p).hi_ns == p.at_ns
            && n.measured(p).hi_failed == Some(p.failed) && n.measured(p).lo_failed
            == n.base_failed,
        p.failed < n.threshold ==> n.measured(p).lo_ns == p.at_ns && n.measured(p).hi_ns
            == n.failure_at && n.measured(p).hi_failed is None && n.measured(p).lo_failed
            == p.failed,
{
}

/// The ends are measured again with other futures, and where one does not hold
/// up the search says that it is unsure; nothing else makes it so.
pub proof fn an_end_that_does_not_hold_up_is_told(n: Numbers, p: Probe)
    requires
        n.wf(),
        n.order() matches Some(o) && p.at_ns == o.at_ns,
    ensures
        n.phase == Phase::AgainLo ==> p.at_ns == n.lo_ns && n.order().unwrap().round != 0 && (
        n.measured(p).unsure <==> n.unsure || p.failed >= n.threshold),
        n.phase == Phase::AgainHi ==> p.at_ns == n.hi_ns && n.order().unwrap().round != 0 && (
        n.measured(p).unsure <==> n.unsure || p.failed < n.threshold),
        n.phase != Phase::AgainLo && n.phase != Phase::AgainHi ==> n.measured(p).unsure == n.unsure
            && n.order().unwrap().round == 0,
        n.phase == Phase::AgainLo && n.hi_failed is Some ==> n.measured(p).phase == Phase::AgainHi,
        n.phase == Phase::AgainLo || n.phase == Phase::AgainHi ==> n.measured(p).lo_ns == n.lo_ns
            && n.measured(p).hi_ns == n.hi_ns,
{
}

/// The futures of a probe differ: no two are started from the same seed.
pub proof fn no_two_futures_are_the_same(at: u64, round: u64, j: u64, k: u64)
    requires
        j != k,
    ensures
        replacement(at, round, j) != replacement(at, round, k),
{
    let base = at.wrapping_mul(0x9E37_79B9_7F4A_7C15) ^ round.wrapping_mul(0xD1B5_4A32_D192_ED03);
    let x = j.wrapping_add(1);
    let y = k.wrapping_add(1);
    assert(x != y);
    assert(base ^ x != base ^ y) by (bit_vector)
        requires
            x != y,
    ;
}

/// A probe counts the futures that fail like the reference, and those that end
/// badly in another way.
pub proof fn a_probe_counts_its_futures(endings: Seq<Ending>, reference: EndingView)
    ensures
        alike(endings, reference, endings.len() as int) == endings.filter(
            |e: Ending| e@.fails_like(reference),
        ).len(),
        differing(endings, reference, endings.len() as int) == endings.filter(
            |e: Ending| !e@.fails_like(reference) && (e@.failure is Some || e@.timed_out),
        ).len(),
{
    lemma_counts(endings, reference, endings.len() as int);
    assert(endings.take(endings.len() as int) =~= endings);
}

proof fn lemma_counts(endings: Seq<Ending>, reference: EndingView, n: int)
    requires
        0 <= n <= endings.len(),
    ensures
        alike(endings, reference, n) == endings.take(n).filter(
            |e: Ending| e@.fails_like(reference),
        ).len(),
        differing(endings, reference, n) == endings.take(n).filter(
            |e: Ending| !e@.fails_like(reference) && (e@.failure is Some || e@.timed_out),
        ).len(),
    decreases n,
{
    reveal(Seq::filter);
    if n > 0 {
        lemma_counts(endings, reference, n - 1);
        assert(endings.take(n).drop_last() =~= endings.take(n - 1));
        assert(endings.take(n).last() == endings[n - 1]);
    }
}

/// The lines of an interval are those clocked in it, both ends included, in
/// their order.
pub proof fn an_interval_holds_its_lines(lines: Seq<(u64, Seq<char>)>, lo: u64, hi: u64)
    ensures
        within(lines, lo, hi, lines.len() as int) == lines.filter(
            |l: (u64, Seq<char>)| lo <= l.0 && l.0 <= hi,
        ).map_values(|l: (u64, Seq<char>)| l.1),
{
    lemma_interval(lines, lo, hi, lines.len() as int);
    assert(lines.take(lines.len() as int) =~= lines);
}

proof fn lemma_interval(lines: Seq<(u64, Seq<char>)>, lo: u64, hi: u64, n: int)
    requires
        0 <= n <= lines.len(),
    ensures
        within(lines, lo, hi, n) == lines.take(n).filter(
            |l: (u64, Seq<char>)| lo <= l.0 && l.0 <= hi,
        ).map_values(|l: (u64, Seq<char>)| l.1),
    decreases n,
{
    reveal(Seq::filter);
    let inside = |l: (u64, Seq<char>)| lo <= l.0 && l.0 <= hi;
    let line = |l: (u64, Seq<char>)| l.1;
    if n > 0 {
        lemma_interval(lines, lo, hi, n - 1);
        assert(lines.take(n).drop_last() =~= lines.take(n - 1));
        assert(lines.take(n).last() == lines[n - 1]);
    }
    assert(within(lines, lo, hi, n) =~= lines.take(n).filter(inside).map_values(line));
}

/// A search goes on while its interval is longer than asked for, and then
/// measures its ends again: the lower one unless it is the start, or was just
/// measured, and the upper one unless it is the death itself.
pub proof fn the_ends_are_measured_again(n: Numbers, p: Probe)
    requires
        n.wf(),
        n.phase == Phase::Last || n.phase == Phase::Between || n.phase == Phase::AgainLo,
        n.order() matches Some(o) && p.at_ns == o.at_ns,
        p.failed <= n.per_probe,
    ensures
        ({
            let after = n.measured(p);
            let wide = after.hi_ns - after.lo_ns > after.resolution_ns;
            let only_death = after.lo_ns == after.hi_ns && after.hi_failed is None;
            let searching = n.phase == Phase::Last || n.phase == Phase::Between;
            &&& searching && wide ==> after.phase == Phase::Between
            &&& searching && !wide && after.lo_ns != 0 && !only_death ==> after.phase
                == Phase::AgainLo
            &&& searching && !wide && after.lo_ns == 0 && after.hi_failed is Some ==> after.phase
                == Phase::AgainHi
            &&& n.phase == Phase::AgainLo && after.hi_failed is Some ==> after.phase
                == Phase::AgainHi
            &&& n.phase == Phase::AgainLo && after.hi_failed is None ==> after.phase == Phase::Done
        }),
{
}

} // verus!
