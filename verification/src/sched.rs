//! The baton as one process of a run sees it. Every guest thread is parked
//! on its word in the run's state; exactly one holds the baton and runs
//! guest code. Switches happen only at quantum expiry and at the interposed
//! blocking primitives, so the interleaving is a function of the seed.

use vstd::prelude::*;
use crate::bytes::cut;
use crate::environ;
use crate::fields;
use crate::launch;
use crate::rng::GOLDEN;
use crate::settings;
use crate::settings::parse_quantum;
use crate::shared::Handoff;
use crate::stubdata::Info;
use crate::text;
use crate::text::{chars_of, parse_unsigned, push_decimal, push_hex};
use crate::words;
use crate::words::{push_padded, push_signed, split_once_text};

verus! {

/// What the calling thread becomes when it gives up the baton
#[derive(Debug, Clone, Copy, PartialEq, Eq, Structural)]
pub enum State {
    Runnable,
    /// Waiting for a wake on this key (an address or pseudo address in this
    /// process)
    Blocked(u64),
    Exited,
}

/// Bytes of address space for the guest's heap, unless the run says
pub const HEAP_SIZE: u64 = 0x100_0000_0000;

pub const QUANTUM: (u32, u32) = (1000, 10000);

#[derive(Debug, Clone, Copy, PartialEq, Eq, Structural)]
pub struct Config {
    pub seed: u64,
    pub heap_size: u64,
    pub quantum_lo: u32,
    pub quantum_hi: u32,
}

/// What a process takes from its environment. What it cannot read is as if
/// it were not there.
pub open spec fn configured(
    seed: Option<Seq<char>>,
    quantum: Option<Seq<char>>,
    heap: Option<Seq<char>>,
) -> Config {
    let q = match quantum {
        Some(s) => match settings::quantum(s) {
            Some(q) => q,
            None => QUANTUM,
        },
        None => QUANTUM,
    };
    Config {
        seed: match seed {
            Some(s) => match text::unsigned_value(s, 10, u64::MAX as nat) {
                Some(n) => n as u64,
                None => 0,
            },
            None => 0,
        },
        heap_size: match heap {
            Some(s) => match text::unsigned_value(s, 16, u64::MAX as nat) {
                Some(n) => n as u64,
                None => HEAP_SIZE,
            },
            None => HEAP_SIZE,
        },
        quantum_lo: q.0,
        quantum_hi: q.1,
    }
}

pub open spec fn text_of(s: Option<&str>) -> Option<Seq<char>> {
    match s {
        Some(t) => Some(t@),
        None => None,
    }
}

impl Config {
    /// From the values of the variables a launcher sets
    pub fn from_env(seed: Option<&str>, quantum: Option<&str>, heap: Option<&str>) -> (r: Self)
        ensures
            r == configured(text_of(seed), text_of(quantum), text_of(heap)),
    {
        let seed: u64 = match seed {
            Some(s) => match parse_unsigned(&chars_of(s), 10, u64::MAX) {
                Some(n) => n,
                None => 0,
            },
            None => 0,
        };
        let heap_size: u64 = match heap {
            Some(s) => match parse_unsigned(&chars_of(s), 16, u64::MAX) {
                Some(n) => n,
                None => HEAP_SIZE,
            },
            None => HEAP_SIZE,
        };
        let (lo, hi) = match quantum {
            Some(s) => match parse_quantum(s) {
                Ok(q) => q,
                Err(_) => QUANTUM,
            },
            None => QUANTUM,
        };
        Config { seed, heap_size, quantum_lo: lo, quantum_hi: hi }
    }
}

/// A run seed made one process's own: every per-process stream starts here.
pub fn process_seed(seed: u64, proc_index: u32) -> (r: u64)
    ensures
        r == seed.wrapping_add((proc_index as u64).wrapping_mul(GOLDEN)),
{
    seed.wrapping_add((proc_index as u64).wrapping_mul(GOLDEN))
}

/// Seed bisection reseeds every random stream at a virtual time. The streams
/// of a process are its own, and each asks here before it draws: `done` is
/// the stream's note that it has switched, and `with` the run's new seed
/// once the time has passed.
pub fn reseed_once(done: &mut bool, with: Option<u64>, proc_index: u32) -> (r: Option<u64>)
    ensures
        match with {
            Some(seed) => if *old(done) {
                r is None && *final(done)
            } else {
                *final(done) && r == Some(
                    seed.wrapping_add((proc_index as u64).wrapping_mul(GOLDEN)),
                )
            },
            None => r is None && *final(done) == *old(done),
        },
{
    if *done {
        return None;
    }
    match with {
        Some(seed) => {
            *done = true;
            Some(process_seed(seed, proc_index))
        },
        None => None,
    }
}

/// A `timespec` in nanoseconds. Negative parts count as none, and what does
/// not fit is as much as there is.
pub open spec fn timespec_value(sec: i64, nsec: i64) -> u64 {
    let s: int = if sec < 0 {
        0
    } else {
        sec as int
    };
    let n: int = if nsec < 0 {
        0
    } else {
        nsec as int
    };
    if s * 1_000_000_000 > u64::MAX || s * 1_000_000_000 + n > u64::MAX {
        u64::MAX
    } else {
        (s * 1_000_000_000 + n) as u64
    }
}

pub fn timespec_ns(sec: i64, nsec: i64) -> (r: u64)
    ensures
        r == timespec_value(sec, nsec),
{
    let s: u64 = if sec < 0 {
        0
    } else {
        sec as u64
    };
    let n: u64 = if nsec < 0 {
        0
    } else {
        nsec as u64
    };
    let whole: u128 = s as u128 * 1_000_000_000 + n as u128;
    if whole > u64::MAX as u128 {
        u64::MAX
    } else {
        whole as u64
    }
}

/// A thread's identity is kept as its id plus one; above it, how many rounds
/// of key destructors the exiting thread has been through.
pub const ROUND: u64 = 0x1_0000_0000;

/// The fourth and last round of key destructors
pub const LAST_ROUND: u64 = 3;

/// What is kept for a thread
pub open spec fn kept(id: u32, round: u64) -> u64 {
    (id + 1 + round * ROUND) as u64
}

/// What is kept for thread `id` in a round
pub fn identity(id: u32, round: u64) -> (r: u64)
    requires
        id < u32::MAX,
        round <= LAST_ROUND,
    ensures
        r == kept(id, round),
{
    id as u64 + 1 + round * ROUND
}

/// Whose identity it is; none where nothing is kept
pub fn whose(value: u64) -> (r: Option<u32>)
    requires
        value != 0 ==> value % ROUND != 0,
    ensures
        r == (if value == 0 {
            None
        } else {
            Some((value % ROUND - 1) as u32)
        }),
{
    if value == 0 {
        None
    } else {
        Some((value % ROUND - 1) as u32)
    }
}

/// A thread ends, and its key's destructor is called with what was kept. Our
/// key is older than any of the guest's, so it is called first in each
/// round, and the guest's destructors would run after the baton was given
/// away: the identity is put back for all but the last round. What to keep
/// for another round; none when the thread has exited.
pub fn teardown(value: u64) -> (r: Option<u64>)
    requires
        value % ROUND != 0,
    ensures
        r == (if value / ROUND < LAST_ROUND {
            Some((value + ROUND) as u64)
        } else {
            None
        }),
{
    if value / ROUND < LAST_ROUND {
        Some(value + ROUND)
    } else {
        None
    }
}

/// A thread keeps its identity through every round, and there are four: each
/// of the first three puts it back with the next round's number.
pub proof fn an_identity_lasts_four_rounds(id: u32, round: u64)
    requires
        id < u32::MAX,
        round <= LAST_ROUND,
    ensures
        kept(id, round) % ROUND - 1 == id,
        kept(id, round) / ROUND == round,
        round < LAST_ROUND ==> kept(id, round) + ROUND == kept(id, (round + 1) as u64),
{
}

/// Hooks are attributed to the process that consumed them.
#[derive(Debug, Clone, Copy, PartialEq, Eq, Structural)]
pub struct Hooks {
    /// What this process last saw in the counter
    pub last: i64,
    /// What it consumed before that
    pub total: i64,
}

impl Hooks {
    pub fn new() -> (r: Self)
        ensures
            r == (Hooks { last: 0, total: 0 }),
    {
        Hooks { last: 0, total: 0 }
    }

    /// Fold the hooks consumed from the current quantum into the total.
    pub fn settle(&mut self, remaining: i64)
        ensures
            *final(self) == (Hooks {
                last: remaining,
                total: old(self).total.wrapping_add(old(self).last.wrapping_sub(remaining)),
            }),
    {
        let used: i64 = self.last.wrapping_sub(remaining);
        self.total = self.total.wrapping_add(used);
        self.last = remaining;
    }

    /// A new quantum is in the counter.
    pub fn install(&mut self, quantum: i64)
        ensures
            *final(self) == (Hooks { last: quantum, ..*old(self) }),
    {
        self.last = quantum;
    }
}

/// A quantum that is used up was counted whole: installing it and settling
/// when nothing is left adds it to the total.
pub proof fn a_used_quantum_is_counted(h: Hooks, quantum: i64)
    requires
        0 <= quantum,
        h.total + quantum <= i64::MAX,
    ensures
        h.total.wrapping_add(quantum.wrapping_sub(0)) == h.total + quantum,
{
}

/// An interposed call counts as one hook event, like a stub: what is left of
/// the quantum, and whether it has expired.
pub fn hook_event(counter: i64) -> (r: (i64, bool))
    requires
        counter > i64::MIN,
    ensures
        r == ((counter - 1) as i64, counter == 1),
{
    (counter - 1, counter - 1 == 0)
}

/// What a hand-off decided, copied out from under the lock
#[derive(Debug, Clone, Copy, PartialEq, Eq, Structural)]
pub struct After {
    pub handoff: Handoff,
    pub quantum: i64,
    pub issued: u64,
    pub clock: u64,
    /// The hand-off crashed this process.
    pub crashed_self: bool,
}

/// What the thread that gave up the baton does then
#[derive(Debug, Clone, Copy, PartialEq, Eq, Structural)]
pub enum Act {
    /// The run is idle: look again in real time.
    Wait,
    Die,
    /// Go on: the quantum is its own, after what is due has been waited out
    /// where something is.
    Go { settle: bool, quantum: i64 },
    /// Wake thread `to`, and park until the baton comes back.
    Park { to: usize, seen: u32 },
    /// Wake thread `to` and die: the crash comes after the baton is safely
    /// elsewhere.
    WakeAndDie { to: usize },
    /// Wake thread `to`: the caller is done.
    WakeAndReturn { to: usize },
}

impl After {
    /// What is to be done. `unsettled`: something is due when the baton is
    /// next taken up, a crashed process to wait out or a child's death to
    /// tell of.
    pub fn act(&self, state: State, unsettled: bool) -> (r: Act)
        ensures
            r == (match self.handoff {
                Handoff::Idle => if self.crashed_self {
                    Act::Die
                } else {
                    Act::Wait
                },
                Handoff::Stay => Act::Go { settle: unsettled, quantum: self.quantum },
                Handoff::Switch { to, seen } => if self.crashed_self {
                    Act::WakeAndDie { to }
                } else if state != State::Exited {
                    Act::Park { to, seen }
                } else {
                    Act::WakeAndReturn { to }
                },
            }),
    {
        match self.handoff {
            Handoff::Idle => if self.crashed_self {
                Act::Die
            } else {
                Act::Wait
            },
            Handoff::Stay => Act::Go { settle: unsettled, quantum: self.quantum },
            Handoff::Switch { to, seen } => if self.crashed_self {
                Act::WakeAndDie { to }
            } else if state != State::Exited {
                Act::Park { to, seen }
            } else {
                Act::WakeAndReturn { to }
            },
        }
    }
}

/// A quantum expired.
#[derive(Debug, Clone, Copy, PartialEq, Eq, Structural)]
pub enum Expiry {
    /// Not here: one more event, so the switch falls on the next hook.
    OneMore,
    /// Give up the baton. `stray`: the thread did not hold it, and ate the
    /// holder's quantum at a moment of real time.
    Yield { stray: bool },
    /// A thread outside the schedule ran hooked code: its hooks moved the
    /// scheduled threads' expiries. It gets a quantum of its own.
    Renew,
}

pub fn expired(masked: bool, scheduled: bool, holds_baton: bool) -> (r: Expiry)
    ensures
        r == (if masked {
            Expiry::OneMore
        } else if scheduled {
            Expiry::Yield { stray: !holds_baton }
        } else {
            Expiry::Renew
        }),
{
    if masked {
        Expiry::OneMore
    } else if scheduled {
        Expiry::Yield { stray: !holds_baton }
    } else {
        Expiry::Renew
    }
}

/// Switch sites of interposed calls in the schedule trace: far above any
/// stub address, tagged with the kind of call
pub const SITE_IO: u64 = 0xF100_0000_0000_0000;

pub const SITE_NET: u64 = 0xF200_0000_0000_0000;

pub const SITE_WAIT: u64 = 0xF300_0000_0000_0000;

pub const SITE_FILE: u64 = 0xF400_0000_0000_0000;

/// One line per switch, so two runs can be compared switch by switch
pub open spec fn switch_line(
    pid: u32,
    from: usize,
    to: usize,
    issued: u64,
    site: u64,
    clock: u64,
) -> Seq<char> {
    "p"@ + text::decimal(pid as nat) + " t"@ + text::decimal(from as nat) + " -> t"@
        + text::decimal(to as nat) + " issued="@ + text::decimal(issued as nat) + " site="@
        + text::hex(site as nat) + " clock="@ + text::decimal(clock as nat) + seq!['\n']
}

pub fn trace_switch(pid: u32, from: usize, to: usize, issued: u64, site: u64, clock: u64) -> (r:
    String)
    ensures
        r@ == switch_line(pid, from, to, issued, site, clock),
{
    let mut line = String::new();
    line.append("p");
    push_decimal(&mut line, pid as u64);
    line.append(" t");
    push_decimal(&mut line, from as u64);
    line.append(" -> t");
    push_decimal(&mut line, to as u64);
    line.append(" issued=");
    push_decimal(&mut line, issued);
    line.append(" site=");
    push_hex(&mut line, site);
    line.append(" clock=");
    push_decimal(&mut line, clock);
    line.push('\n');
    assert(line@ =~= switch_line(pid, from, to, issued, site, clock));
    line
}

/// The interposed calls that are counted, in the order of their counts
pub open spec fn count_name(i: int) -> Seq<char> {
    if i == 0 {
        "create"@
    } else if i == 1 {
        "join"@
    } else if i == 2 {
        "mutex_wait"@
    } else if i == 3 {
        "cond_wait"@
    } else if i == 4 {
        "ulock_wait"@
    } else if i == 5 {
        "os_sync_wait"@
    } else if i == 6 {
        "yield"@
    } else if i == 7 {
        "exit"@
    } else {
        "dispatch_wait"@
    }
}

fn name_of_count(i: usize) -> (r: &'static str)
    ensures
        r@ == count_name(i as int),
{
    match i {
        0 => "create",
        1 => "join",
        2 => "mutex_wait",
        3 => "cond_wait",
        4 => "ulock_wait",
        5 => "os_sync_wait",
        6 => "yield",
        7 => "exit",
        _ => "dispatch_wait",
    }
}

/// What a process reports of its part of the run
pub struct Facts {
    /// What its executable says of itself, and the hooks it consumed
    pub info: Option<Info>,
    pub hooks: i64,
    pub proc: u32,
    pub threads: u64,
    pub expiries: u64,
    pub switches: u64,
    pub schedule_hash: u64,
    pub paths_refused: u64,
    pub outside_wakes: u64,
    pub first_outside_wake_ns: u64,
    pub outside_expiries: u64,
    pub stray_expiries: u64,
    pub exit_waits: u64,
    pub exit_wait_max_ns: u64,
    pub mappings_placed: u64,
    pub mappings_overflowed: u64,
    pub mappings_hinted: u64,
    pub io_waits: u64,
    /// Interposed calls that took the scheduler's path, by kind
    pub counts: [u64; 9],
}

/// A field whose value is a number
pub open spec fn numbered(key: Seq<char>, n: u64) -> (Seq<char>, Seq<char>) {
    (key, text::decimal(n as nat))
}

/// The fields of the first `n` counts
pub open spec fn count_fields(counts: Seq<u64>, n: int) -> fields::Entries
    decreases n,
{
    if n <= 0 {
        Seq::empty()
    } else {
        count_fields(counts, n - 1).push(
            numbered("interposed_"@ + count_name(n - 1), counts[n - 1]),
        )
    }
}

/// What the executable's header says
pub open spec fn info_fields(info: Option<Info>, hooks: i64) -> fields::Entries {
    match info {
        Some(i) => seq![
            numbered("seed"@, i.seed),
            numbered("sites"@, i.sites),
            numbered("mem_sites"@, i.mem_sites),
            ("hooks"@, words::signed(hooks as int)),
        ],
        None => Seq::empty(),
    }
}

/// The fields of a report, in order. A process that is in no run says only
/// that it was supervised.
pub open spec fn report_fields(f: Option<Facts>) -> fields::Entries {
    let head = seq![("supervisor"@, "loaded"@)];
    match f {
        None => head,
        Some(f) => head + info_fields(f.info, f.hooks) + seq![
            numbered("proc"@, f.proc as u64),
            numbered("threads"@, f.threads),
            numbered("expiries"@, f.expiries),
            numbered("switches"@, f.switches),
            ("schedule_hash"@, words::padded(f.schedule_hash as nat, 16, 16)),
            numbered("paths_refused"@, f.paths_refused),
            numbered("outside_wakes"@, f.outside_wakes),
            numbered("first_outside_wake_ns"@, f.first_outside_wake_ns),
            numbered("outside_expiries"@, f.outside_expiries),
            numbered("stray_expiries"@, f.stray_expiries),
            numbered("exit_waits"@, f.exit_waits),
            numbered("exit_wait_max_ns"@, f.exit_wait_max_ns),
            numbered("mappings_placed"@, f.mappings_placed),
            numbered("mappings_overflowed"@, f.mappings_overflowed),
            numbered("mappings_hinted"@, f.mappings_hinted),
            numbered("io_waits"@, f.io_waits),
        ] + count_fields(f.counts@, 9),
    }
}

/// One line per field of the first `n`
pub open spec fn report_text(e: fields::Entries, n: int) -> Seq<char>
    decreases n,
{
    if n <= 0 {
        Seq::empty()
    } else {
        report_text(e, n - 1) + (e[n - 1].0 + seq!['='] + e[n - 1].1) + seq!['\n']
    }
}

fn add_number(out: &mut Vec<(String, String)>, key: &str, n: u64)
    ensures
        fields::pairs(final(out)@) == fields::pairs(old(out)@).push(numbered(key@, n)),
{
    let mut v = String::new();
    push_decimal(&mut v, n);
    assert(v@ =~= text::decimal(n as nat));
    out.push((key.to_owned(), v));
    assert(fields::pairs(out@) =~= fields::pairs(old(out)@).push(numbered(key@, n)));
}

fn add_info(out: &mut Vec<(String, String)>, f: &Facts)
    ensures
        fields::pairs(final(out)@) == fields::pairs(old(out)@) + info_fields(f.info, f.hooks),
{
    match f.info {
        Some(i) => {
            add_number(out, "seed", i.seed);
            add_number(out, "sites", i.sites);
            add_number(out, "mem_sites", i.mem_sites);
            let mut v = String::new();
            push_signed(&mut v, f.hooks);
            assert(v@ =~= words::signed(f.hooks as int));
            let ghost was = fields::pairs(out@);
            out.push(("hooks".to_owned(), v));
            assert(fields::pairs(out@) =~= was.push(("hooks"@, v@)));
        },
        None => {},
    }
    assert(fields::pairs(out@) =~= fields::pairs(old(out)@) + info_fields(f.info, f.hooks));
}

fn add_counts(out: &mut Vec<(String, String)>, counts: &[u64; 9])
    ensures
        fields::pairs(final(out)@) == fields::pairs(old(out)@) + count_fields(counts@, 9),
{
    let ghost was = fields::pairs(out@);
    let mut i: usize = 0;
    assert(was + count_fields(counts@, 0) =~= was);
    while i < 9
        invariant
            i <= 9,
            fields::pairs(out@) == was + count_fields(counts@, i as int),
        decreases 9 - i,
    {
        let ghost now = fields::pairs(out@);
        let mut key = String::new();
        key.append("interposed_");
        key.append(name_of_count(i));
        assert(key@ =~= "interposed_"@ + count_name(i as int));
        add_number(out, key.as_str(), counts[i]);
        i += 1;
        assert(fields::pairs(out@) =~= was + count_fields(counts@, i as int));
    }
}

fn add_schedule(out: &mut Vec<(String, String)>, f: &Facts)
    ensures
        fields::pairs(final(out)@) == fields::pairs(old(out)@) + seq![
            numbered("proc"@, f.proc as u64),
            numbered("threads"@, f.threads),
            numbered("expiries"@, f.expiries),
            numbered("switches"@, f.switches),
            ("schedule_hash"@, words::padded(f.schedule_hash as nat, 16, 16)),
        ],
{
    add_number(out, "proc", f.proc as u64);
    add_number(out, "threads", f.threads);
    add_number(out, "expiries", f.expiries);
    add_number(out, "switches", f.switches);
    let mut v = String::new();
    push_padded(&mut v, f.schedule_hash, 16, 16);
    assert(v@ =~= words::padded(f.schedule_hash as nat, 16, 16));
    let ghost was = fields::pairs(out@);
    out.push(("schedule_hash".to_owned(), v));
    assert(fields::pairs(out@) =~= was.push(("schedule_hash"@, v@)));
    assert(fields::pairs(out@) =~= fields::pairs(old(out)@) + seq![
        numbered("proc"@, f.proc as u64),
        numbered("threads"@, f.threads),
        numbered("expiries"@, f.expiries),
        numbered("switches"@, f.switches),
        ("schedule_hash"@, words::padded(f.schedule_hash as nat, 16, 16)),
    ]);
}

fn add_outside(out: &mut Vec<(String, String)>, f: &Facts)
    ensures
        fields::pairs(final(out)@) == fields::pairs(old(out)@) + seq![
            numbered("paths_refused"@, f.paths_refused),
            numbered("outside_wakes"@, f.outside_wakes),
            numbered("first_outside_wake_ns"@, f.first_outside_wake_ns),
            numbered("outside_expiries"@, f.outside_expiries),
            numbered("stray_expiries"@, f.stray_expiries),
            numbered("exit_waits"@, f.exit_waits),
            numbered("exit_wait_max_ns"@, f.exit_wait_max_ns),
            numbered("mappings_placed"@, f.mappings_placed),
            numbered("mappings_overflowed"@, f.mappings_overflowed),
            numbered("mappings_hinted"@, f.mappings_hinted),
            numbered("io_waits"@, f.io_waits),
        ],
{
    add_number(out, "paths_refused", f.paths_refused);
    add_number(out, "outside_wakes", f.outside_wakes);
    add_number(out, "first_outside_wake_ns", f.first_outside_wake_ns);
    add_number(out, "outside_expiries", f.outside_expiries);
    add_number(out, "stray_expiries", f.stray_expiries);
    add_number(out, "exit_waits", f.exit_waits);
    add_number(out, "exit_wait_max_ns", f.exit_wait_max_ns);
    add_number(out, "mappings_placed", f.mappings_placed);
    add_number(out, "mappings_overflowed", f.mappings_overflowed);
    add_number(out, "mappings_hinted", f.mappings_hinted);
    add_number(out, "io_waits", f.io_waits);
    assert(fields::pairs(out@) =~= fields::pairs(old(out)@) + seq![
        numbered("paths_refused"@, f.paths_refused),
        numbered("outside_wakes"@, f.outside_wakes),
        numbered("first_outside_wake_ns"@, f.first_outside_wake_ns),
        numbered("outside_expiries"@, f.outside_expiries),
        numbered("stray_expiries"@, f.stray_expiries),
        numbered("exit_waits"@, f.exit_waits),
        numbered("exit_wait_max_ns"@, f.exit_wait_max_ns),
        numbered("mappings_placed"@, f.mappings_placed),
        numbered("mappings_overflowed"@, f.mappings_overflowed),
        numbered("mappings_hinted"@, f.mappings_hinted),
        numbered("io_waits"@, f.io_waits),
    ]);
}

fn write_fields(e: &Vec<(String, String)>) -> (r: String)
    ensures
        r@ == report_text(fields::pairs(e@), e@.len() as int),
{
    let ghost all = fields::pairs(e@);
    let mut out = String::new();
    let mut i: usize = 0;
    while i < e.len()
        invariant
            i <= e@.len(),
            all == fields::pairs(e@),
            out@ == report_text(all, i as int),
        decreases e@.len() - i,
    {
        let ghost was = out@;
        assert(all[i as int] == (e@[i as int].0@, e@[i as int].1@));
        out.append(e[i].0.as_str());
        out.push('=');
        out.append(e[i].1.as_str());
        out.push('\n');
        assert(out@ =~= was + (all[i as int].0 + seq!['='] + all[i as int].1) + seq!['\n']);
        i += 1;
    }
    out
}

/// What a process reports at its end
pub fn report(f: &Option<Facts>) -> (r: String)
    ensures
        ({
            let e = report_fields(*f);
            r@ == report_text(e, e.len() as int)
        }),
{
    let mut out: Vec<(String, String)> = Vec::new();
    out.push(("supervisor".to_owned(), "loaded".to_owned()));
    assert(fields::pairs(out@) =~= seq![("supervisor"@, "loaded"@)]);
    match f {
        Some(f) => {
            add_info(&mut out, f);
            add_schedule(&mut out, f);
            add_outside(&mut out, f);
            add_counts(&mut out, &f.counts);
        },
        None => {},
    }
    assert(fields::pairs(out@) =~= report_fields(*f));
    write_fields(&out)
}

/// A message as it is logged: behind our name, cut off where it does not fit
/// the buffer it is written from
pub open spec fn logged(msg: Seq<u8>) -> Seq<u8> {
    let room = 243;
    environ::encoded("supervisor: "@) + (if msg.len() <= room {
        msg
    } else {
        msg.take(room)
    }) + seq![0x0au8]
}

pub fn log_line(msg: &[u8]) -> (r: Vec<u8>)
    ensures
        r@ == logged(msg@),
{
    let head = "supervisor: ".as_bytes();
    let mut out = cut(head, 0, head.len());
    assert(out@ =~= head@);
    let n: usize = if msg.len() <= 243 {
        msg.len()
    } else {
        243
    };
    let mut body = cut(msg, 0, n);
    assert(body@ =~= (if msg@.len() <= 243 {
        msg@
    } else {
        msg@.take(243)
    }));
    out.append(&mut body);
    out.push(0x0a);
    assert(out@ =~= logged(msg@));
    out
}

/// What a process reports of its heap
pub open spec fn heap_fields(fixed: bool, leaked_blocks: u64, leaked_bytes: u64) -> fields::Entries {
    seq![
        (
            "heap_fixed"@,
            if fixed {
                "true"@
            } else {
                "false"@
            },
        ),
        numbered("heap_leaked_blocks"@, leaked_blocks),
        numbered("heap_leaked_bytes"@, leaked_bytes),
    ]
}

/// The report's lines about the heap
pub fn heap_report(fixed: bool, leaked_blocks: u64, leaked_bytes: u64) -> (r: String)
    ensures
        r@ == report_text(heap_fields(fixed, leaked_blocks, leaked_bytes), 3),
{
    let mut out: Vec<(String, String)> = Vec::new();
    out.push(
        (
            "heap_fixed".to_owned(),
            if fixed {
                "true".to_owned()
            } else {
                "false".to_owned()
            },
        ),
    );
    assert(fields::pairs(out@) =~= heap_fields(fixed, leaked_blocks, leaked_bytes).take(1));
    add_number(&mut out, "heap_leaked_blocks", leaked_blocks);
    add_number(&mut out, "heap_leaked_bytes", leaked_bytes);
    assert(fields::pairs(out@) =~= heap_fields(fixed, leaked_blocks, leaked_bytes));
    write_fields(&out)
}

/// The fields put one after the other, the first `n`
pub open spec fn put_all(e: fields::Entries, n: int) -> fields::Entries
    decreases n,
{
    if n <= 0 {
        Seq::empty()
    } else {
        fields::put(put_all(e, n - 1), e[n - 1].0, e[n - 1].1)
    }
}

/// A key or value that a line can carry: no space around it and no line end
/// in it
pub open spec fn is_plain(s: Seq<char>) -> bool {
    text::trimmed(s) == s && !s.contains('\n') && (s.len() == 0 || s.last() != '\r')
}

/// A report reads back: the launcher finds every field that was written,
/// with its value.
pub proof fn a_report_reads_back(e: fields::Entries, n: int)
    requires
        0 <= n <= e.len(),
        forall|i: int|
            #![trigger e[i]]
            0 <= i < e.len() ==> is_plain(e[i].0) && !e[i].0.contains('=') && is_plain(e[i].1),
    ensures
        text::pieces(report_text(e, n), '\n').last().len() == 0,
        text::lines_of(report_text(e, n)).len() == n,
        launch::parsed(report_text(e, n)) == put_all(e, n),
    decreases n,
{
    let t = report_text(e, n);
    if n == 0 {
        text::lemma_no_separator(t, '\n');
        assert(text::pieces(t, '\n') =~= seq![t]);
        assert(text::lines_of(t) =~= Seq::empty());
    } else {
        a_report_reads_back(e, n - 1);
        let before = report_text(e, n - 1);
        let (k, v) = e[n - 1];
        let line = k + seq!['='] + v;
        assert(is_plain(k) && is_plain(v));
        assert(!line.contains('\n')) by {
            if line.contains('\n') {
                let i = choose|i: int| 0 <= i < line.len() && line[i] == '\n';
                if i < k.len() {
                    assert(k[i] == '\n');
                } else if i > k.len() {
                    assert(v[i - k.len() - 1] == '\n');
                }
            }
        }
        assert(line.last() != '\r') by {
            if v.len() > 0 {
                assert(line.last() == v.last());
            }
        }
        text::lemma_line_more(before, line);
        let ls = text::lines_of(t);
        let shorter = text::lines_of(before);
        assert(ls == shorter.push(line));
        lemma_same_fields(ls, shorter, n - 1);
        let at = k.len() as int;
        assert(line[at] == '=');
        assert forall|i: int| 0 <= i < at implies line[i] != '=' by {
            assert(line[i] == k[i]);
            assert(k.contains(k[i]));
        }
        assert(text::first_at(line, '=', at));
        text::lemma_split_at_first(line, '=', at);
        assert(line.take(at) =~= k);
        assert(line.skip(at + 1) =~= v);
    }
}

proof fn lemma_same_fields(a: Seq<Seq<char>>, b: Seq<Seq<char>>, n: int)
    requires
        n <= a.len(),
        n <= b.len(),
        forall|i: int| 0 <= i < n ==> #[trigger] a[i] == b[i],
    ensures
        launch::fields_of(a, n) == launch::fields_of(b, n),
    decreases n,
{
    if n > 0 {
        lemma_same_fields(a, b, n - 1);
        assert(a[n - 1] == b[n - 1]);
    }
}

/// How often a crashed process is looked for before it is given up. Counted,
/// not timed: a process's clock is the virtual one.
pub const PATIENCE: u32 = 200_000;

/// The thread that takes up the baton waits until those who crashed are
/// really dead.
#[derive(Debug, Clone, Copy, PartialEq, Eq, Structural)]
pub enum DeathWait {
    /// They are: go on.
    Go,
    /// One will not die: go on without.
    GiveUp,
    /// Sleep and look again; now and then, ask whether the launcher is still
    /// there: only it can tell.
    Sleep { ask: bool },
}

pub fn death_wait(settled: bool, looked: u32) -> (r: DeathWait)
    ensures
        r == (if settled {
            DeathWait::Go
        } else if looked > PATIENCE {
            DeathWait::GiveUp
        } else {
            DeathWait::Sleep { ask: looked % 1024 == 0 }
        }),
{
    if settled {
        DeathWait::Go
    } else if looked > PATIENCE {
        DeathWait::GiveUp
    } else {
        DeathWait::Sleep { ask: looked % 1024 == 0 }
    }
}

/// How long an exited thread is waited for, in real time
pub const EXIT_PATIENCE_NS: u64 = 30_000_000_000;

/// Whether a thread that has exited is still to be waited for
pub fn exit_wait(alive: bool, waited_ns: u64) -> (r: bool)
    ensures
        r == (alive && waited_ns <= EXIT_PATIENCE_NS),
{
    alive && waited_ns <= EXIT_PATIENCE_NS
}

/// A stretch of virtual time, `LO..HI`
pub open spec fn stretch(s: Seq<char>) -> Option<(u64, u64)> {
    match words::split_at_text(s, ".."@) {
        Some((lo, hi)) => match (
            text::unsigned_value(lo, 10, u64::MAX as nat),
            text::unsigned_value(hi, 10, u64::MAX as nat),
        ) {
            (Some(a), Some(b)) => Some((a as u64, b as u64)),
            _ => None,
        },
        None => None,
    }
}

/// The stretch of virtual time whose hooks or clock reads are traced
pub fn trace_window(v: &str) -> (r: Option<(u64, u64)>)
    ensures
        r == stretch(v@),
{
    match split_once_text(&chars_of(v), "..") {
        Some((lo, hi)) => match (
            parse_unsigned(&lo, 10, u64::MAX),
            parse_unsigned(&hi, 10, u64::MAX),
        ) {
            (Some(a), Some(b)) => Some((a, b)),
            _ => None,
        },
        None => None,
    }
}

pub fn in_window(window: Option<(u64, u64)>, now: u64) -> (r: bool)
    ensures
        r == (window matches Some((lo, hi)) && lo <= now <= hi),
{
    match window {
        Some((lo, hi)) => lo <= now && now <= hi,
        None => false,
    }
}

/// What is traced of an expiry on a thread that does not hold the baton
pub open spec fn stray_line(pid: u32, id: Option<u32>, site: u64) -> Seq<char> {
    "p"@ + text::decimal(pid as nat) + (match id {
        Some(t) => " t"@ + text::decimal(t as nat),
        None => " outside"@,
    }) + " expiry without the baton site="@ + text::hex(site as nat) + "\n"@
}

pub fn trace_stray(pid: u32, id: Option<u32>, site: u64) -> (r: String)
    ensures
        r@ == stray_line(pid, id, site),
{
    let mut out = "p".to_owned();
    push_decimal(&mut out, pid as u64);
    match id {
        Some(t) => {
            out.append(" t");
            push_decimal(&mut out, t as u64);
        },
        None => {
            out.append(" outside");
        },
    }
    out.append(" expiry without the baton site=");
    push_hex(&mut out, site);
    out.append("\n");
    assert(out@ =~= stray_line(pid, id, site));
    out
}

/// A time of seconds and nanoseconds is so many nanoseconds; negative parts count
/// as none, and what is too long is as long as can be.
pub proof fn a_timespec_is_its_nanoseconds(sec: i64, nsec: i64)
    ensures
        0 <= sec && 0 <= nsec && sec * 1_000_000_000 + nsec <= u64::MAX ==> timespec_value(sec, nsec)
            == sec * 1_000_000_000 + nsec,
        0 <= sec && 0 <= nsec && sec * 1_000_000_000 + nsec > u64::MAX ==> timespec_value(sec, nsec)
            == u64::MAX,
        sec < 0 ==> timespec_value(sec, nsec) == timespec_value(0, nsec),
        nsec < 0 ==> timespec_value(sec, nsec) == timespec_value(sec, 0),
{
}

/// A guest is configured as it was launched: what the launcher writes into its
/// environment is what it reads there.
pub proof fn a_guest_is_configured_as_launched(seed: u64, quantum: (u32, u32), heap_size: u64)
    requires
        1 <= quantum.0 <= quantum.1,
    ensures
        ({
            let m = environ::measures(quantum, heap_size);
            configured(Some(text::decimal(seed as nat)), Some(m[0].1), Some(m[1].1)) == (Config {
                seed,
                heap_size,
                quantum_lo: quantum.0,
                quantum_hi: quantum.1,
            })
        }),
{
    let a = words::padded(quantum.0 as nat, 10, 10);
    let b = words::padded(quantum.1 as nat, 10, 10);
    let h = words::padded(heap_size as nat, 16, 16);
    reveal_strlit("..");
    text::a_written_number_is_read(seed as nat, 10, u64::MAX as nat);
    lemma_padded(quantum.0 as nat, 10, 10, u32::MAX as nat);
    lemma_padded(quantum.1 as nat, 10, 10, u32::MAX as nat);
    lemma_padded(heap_size as nat, 16, 16, u64::MAX as nat);
    words::a_text_is_split_where_it_stands(a, ".."@, b);
}

proof fn lemma_padded(n: nat, base: nat, width: int, max: nat)
    requires
        2 <= base <= 16,
        n <= max,
    ensures
        text::unsigned_value(words::padded(n, base, width), base, max) == Some(n),
        !words::padded(n, base, width).contains('.'),
{
    words::padded_numbers_read_back(n, base, width);
    let p = words::padded(n, base, width);
    assert('0' <= p[0] <= '9' || 'a' <= p[0] <= 'f');
    if p.contains('.') {
        let i = choose|i: int| 0 <= i < p.len() && p[i] == '.';
        assert('0' <= p[i] <= '9' || 'a' <= p[i] <= 'f');
    }
}

} // verus!
