//! What a run's outcome comes to: its report, its exit status, and what
//! must agree between two runs.

use vstd::prelude::*;
use crate::fields;
use crate::launch;
use crate::launch::{Outcome, OutcomeView, RunOutcome};
use crate::text;
use crate::text::{push_decimal, same_text};
use crate::words;
use crate::words::{push_padded, push_signed};

verus! {

/// How an outcome is described
pub open spec fn described(o: OutcomeView) -> Seq<char> {
    if o.stopped {
        "stopped"@
    } else {
        match (launch::code_in(o.status), launch::signal_in(o.status)) {
            (Some(c), _) => "exit "@ + words::signed(c as int),
            (None, Some(s)) => "signal "@ + words::signed(s as int),
            _ => "abnormal"@,
        }
    }
}

pub fn describe_status(o: &Outcome) -> (r: String)
    ensures
        r@ == described(o@),
{
    if o.stopped {
        return "stopped".to_owned();
    }
    match (o.exit_code(), o.signal()) {
        (Some(c), _) => {
            let mut out = "exit ".to_owned();
            push_signed(&mut out, c as i64);
            out
        },
        (None, Some(s)) => {
            let mut out = "signal ".to_owned();
            push_signed(&mut out, s as i64);
            out
        },
        _ => "abnormal".to_owned(),
    }
}

/// The exit status of the whole program
#[derive(Debug, Clone, Copy, PartialEq, Eq, Structural)]
pub enum Exit {
    Code(u8),
    /// The guest was killed by a signal.
    Killed(i32),
    Abnormal,
}

pub open spec fn exit_for(o: OutcomeView) -> Exit {
    if o.stopped {
        Exit::Code(0)
    } else {
        match (launch::code_in(o.status), launch::signal_in(o.status)) {
            (Some(c), _) => Exit::Code(c as u8),
            (None, Some(s)) => Exit::Killed(s),
            _ => Exit::Abnormal,
        }
    }
}

pub fn exit_from(o: &Outcome) -> (r: Exit)
    ensures
        r == exit_for(o@),
{
    if o.stopped {
        return Exit::Code(0);
    }
    match (o.exit_code(), o.signal()) {
        (Some(c), _) => Exit::Code(c as u8),
        (None, Some(s)) => Exit::Killed(s),
        _ => Exit::Abnormal,
    }
}

impl Exit {
    /// What is said about a guest that did not exit by itself
    pub open spec fn told(self) -> Seq<char> {
        match self {
            Exit::Code(_) => Seq::empty(),
            Exit::Killed(s) => "guest killed by signal "@ + words::signed(s as int),
            Exit::Abnormal => "guest ended abnormally"@,
        }
    }

    pub fn message(&self) -> (r: String)
        ensures
            r@ == self.told(),
    {
        match self {
            Exit::Code(_) => {
                let s = String::new();
                assert(s@ =~= Seq::<char>::empty());
                s
            },
            Exit::Killed(s) => {
                let mut out = "guest killed by signal ".to_owned();
                push_signed(&mut out, *s as i64);
                out
            },
            Exit::Abnormal => "guest ended abnormally".to_owned(),
        }
    }
}

/// The last of the first `n` processes that was a life of the entry
pub open spec fn last_life(specs: Seq<Option<usize>>, entry: usize, n: int) -> Option<int>
    decreases n,
{
    if n <= 0 {
        None
    } else if specs[n - 1] == Some(entry) {
        Some(n - 1)
    } else {
        last_life(specs, entry, n - 1)
    }
}

/// The process did not end as it should.
pub open spec fn failed(o: OutcomeView) -> bool {
    !o.stopped && launch::code_in(o.status) != Some(0i32)
}

/// The first entry, from number `entry` on, that failed the run, and the
/// process that was its last life
pub open spec fn failure_from(
    guests: Seq<OutcomeView>,
    specs: Seq<Option<usize>>,
    daemons: Seq<bool>,
    entry: int,
) -> Option<(int, int)>
    decreases daemons.len() - entry,
{
    if entry < 0 || entry >= daemons.len() {
        None
    } else {
        let on = failure_from(guests, specs, daemons, entry + 1);
        if daemons[entry] {
            on
        } else {
            match last_life(specs, entry as usize, specs.len() as int) {
                Some(life) => if failed(guests[life]) {
                    Some((entry, life))
                } else {
                    on
                },
                None => on,
            }
        }
    }
}

/// What failed a run
pub open spec fn run_failure(o: RunOutcome) -> Option<(int, int)> {
    failure_from(launch::outcomes(o.guests@), o.specs@, o.daemons@, 0)
}

/// Every list has its place for each process and each entry.
pub open spec fn is_whole(o: RunOutcome) -> bool {
    o.specs@.len() == o.guests@.len() && o.daemons@.len() == o.initial
}

fn life_of(specs: &Vec<Option<usize>>, entry: usize) -> (r: Option<usize>)
    ensures
        match r {
            Some(i) => i < specs@.len() && last_life(specs@, entry, specs@.len() as int) == Some(
                i as int,
            ),
            None => last_life(specs@, entry, specs@.len() as int) is None,
        },
{
    let mut n: usize = specs.len();
    while n > 0
        invariant
            n <= specs@.len(),
            last_life(specs@, entry, specs@.len() as int) == last_life(specs@, entry, n as int),
        decreases n,
    {
        n -= 1;
        match specs[n] {
            Some(e) => {
                if e == entry {
                    return Some(n);
                }
            },
            None => {},
        }
    }
    None
}

/// The run-file entry that failed the run, and the process that was its
/// last life.
pub fn failed_life(o: &RunOutcome) -> (r: Option<(usize, usize)>)
    requires
        is_whole(*o),
    ensures
        match r {
            Some((entry, life)) => run_failure(*o) == Some((entry as int, life as int)) && entry
                < o.initial && life < o.guests@.len(),
            None => run_failure(*o) is None,
        },
{
    let ghost guests = launch::outcomes(o.guests@);
    let mut entry: usize = 0;
    while entry < o.daemons.len()
        invariant
            is_whole(*o),
            entry <= o.daemons@.len(),
            guests == launch::outcomes(o.guests@),
            run_failure(*o) == failure_from(guests, o.specs@, o.daemons@, entry as int),
        decreases o.daemons@.len() - entry,
    {
        if !o.daemons[entry] {
            match life_of(&o.specs, entry) {
                Some(life) => {
                    let g = &o.guests[life];
                    assert(guests[life as int] == g@);
                    let fine: bool = match g.exit_code() {
                        Some(c) => c == 0,
                        None => false,
                    };
                    if !g.stopped && !fine {
                        return Some((entry, life));
                    }
                },
                None => {},
            }
        }
        entry += 1;
    }
    None
}

/// Exit status of a manifest run: that of the first of the run file's
/// entries whose last life did not exit 0. Earlier lives that crashed and
/// were restarted do not count, what children return is their parents'
/// business, and daemons and what the run's stop time killed are killed by
/// design.
pub fn exit_from_run(o: &RunOutcome) -> (r: Exit)
    requires
        is_whole(*o),
    ensures
        r == (match run_failure(*o) {
            Some((_, life)) => exit_for(launch::outcomes(o.guests@)[life]),
            None => Exit::Code(0),
        }),
{
    match failed_life(o) {
        Some((_, life)) => {
            assert(launch::outcomes(o.guests@)[life as int] == o.guests@[life as int]@);
            exit_from(&o.guests[life])
        },
        None => Exit::Code(0),
    }
}

/// A daemon never fails a run, and neither does a process that the run's
/// stop ended or that exited 0.
pub proof fn what_is_killed_by_design_does_not_fail_a_run(
    guests: Seq<OutcomeView>,
    specs: Seq<Option<usize>>,
    daemons: Seq<bool>,
    entry: int,
)
    requires
        0 <= entry,
    ensures
        failure_from(guests, specs, daemons, entry) matches Some((e, life)) ==> entry <= e
            < daemons.len() && !daemons[e] && failed(guests[life]) && specs[life] == Some(
            e as usize,
        ) && (forall|k: int| life < k < specs.len() ==> specs[k] != Some(e as usize)),
    decreases daemons.len() - entry,
{
    if entry < daemons.len() {
        what_is_killed_by_design_does_not_fail_a_run(guests, specs, daemons, entry + 1);
        lemma_last_life(specs, entry as usize, specs.len() as int);
    }
}

proof fn lemma_last_life(specs: Seq<Option<usize>>, entry: usize, n: int)
    requires
        n <= specs.len(),
    ensures
        last_life(specs, entry, n) matches Some(i) ==> 0 <= i < n && specs[i] == Some(entry) && (
        forall|k: int| i < k < n ==> specs[k] != Some(entry)),
    decreases n,
{
    if n > 0 && specs[n - 1] != Some(entry) {
        lemma_last_life(specs, entry, n - 1);
    }
}

/// `key=number`
pub open spec fn numbered(key: Seq<char>, n: nat) -> Seq<char> {
    key + seq!['='] + text::decimal(n)
}

fn number_line(key: &str, n: u64) -> (r: String)
    ensures
        r@ == numbered(key@, n as nat),
{
    let mut out = key.to_owned();
    out.push('=');
    push_decimal(&mut out, n);
    assert(out@ =~= numbered(key@, n as nat));
    out
}

/// The sum of a field over the first `n` guests
pub open spec fn sum_of(guests: Seq<OutcomeView>, key: Seq<char>, n: int) -> u64
    decreases n,
{
    if n <= 0 {
        0
    } else {
        let before = sum_of(guests, key, n - 1);
        match launch::number_in(guests[n - 1].report, key) {
            Some(v) => before.wrapping_add(v),
            None => before,
        }
    }
}

fn sum(guests: &Vec<Outcome>, key: &str) -> (r: u64)
    ensures
        r == sum_of(launch::outcomes(guests@), key@, guests@.len() as int),
{
    let ghost views = launch::outcomes(guests@);
    let mut total: u64 = 0;
    let mut i: usize = 0;
    while i < guests.len()
        invariant
            i <= guests@.len(),
            views == launch::outcomes(guests@),
            total == sum_of(views, key@, i as int),
        decreases guests@.len() - i,
    {
        assert(views[i as int] == guests@[i as int]@);
        match guests[i].report.get_u64(key) {
            Some(v) => {
                total = total.wrapping_add(v);
            },
            None => {},
        }
        i += 1;
    }
    total
}

/// The run-wide totals that every report begins with
pub open spec fn head_lines(o: RunOutcome) -> Seq<Seq<char>> {
    let c = o.totals.counts;
    let n = o.totals.net;
    seq![
        numbered("run.processes"@, o.guests@.len()),
        numbered("run.threads"@, c.threads as nat),
        numbered("run.switches"@, c.switches as nat),
        numbered("run.expiries"@, c.expiries as nat),
        "run.schedule_hash="@ + words::padded(c.schedule_hash as nat, 16, 16),
        numbered("run.net_connections"@, n.connections as nat),
        numbered("run.net_datagrams"@, n.datagrams as nat),
        numbered("run.net_dropped"@, n.dropped as nat),
        numbered("run.net_bytes"@, n.bytes as nat),
        numbered("run.net_passthrough"@, n.passthrough as nat),
        numbered("run.crashes_injected"@, c.crashes_injected as nat),
        numbered("run.restarts"@, c.restarts as nat),
        numbered("run.clock_ns"@, c.clock_ns as nat),
    ]
}

fn push_head(o: &RunOutcome, out: &mut Vec<String>)
    ensures
        words::texts(final(out)@) == words::texts(old(out)@) + head_lines(*o),
{
    let c = o.totals.counts;
    let n = o.totals.net;
    out.push(number_line("run.processes", o.guests.len() as u64));
    out.push(number_line("run.threads", c.threads as u64));
    out.push(number_line("run.switches", c.switches));
    out.push(number_line("run.expiries", c.expiries));
    let mut hash = "run.schedule_hash=".to_owned();
    push_padded(&mut hash, c.schedule_hash, 16, 16);
    out.push(hash);
    out.push(number_line("run.net_connections", n.connections));
    out.push(number_line("run.net_datagrams", n.datagrams));
    out.push(number_line("run.net_dropped", n.dropped));
    out.push(number_line("run.net_bytes", n.bytes));
    out.push(number_line("run.net_passthrough", n.passthrough));
    out.push(number_line("run.crashes_injected", c.crashes_injected));
    out.push(number_line("run.restarts", c.restarts));
    out.push(number_line("run.clock_ns", c.clock_ns));
    assert(words::texts(out@) =~= words::texts(old(out)@) + head_lines(*o));
}

/// When a process died, if that is known
pub open spec fn death_of(died_at: Seq<u64>, i: int) -> Option<u64> {
    if i < died_at.len() {
        Some(died_at[i])
    } else {
        None
    }
}

/// What ended the run, what it used, and what failed it
pub open spec fn end_lines(o: RunOutcome) -> Seq<Seq<char>> {
    let guests = launch::outcomes(o.guests@);
    let stop = if o.totals.stopped_at != 0 {
        seq![numbered("run.stopped_at"@, o.totals.stopped_at as nat)]
    } else {
        Seq::empty()
    };
    let limit = if o.wall_limited {
        seq!["run.wall_limited=true"@]
    } else {
        Seq::empty()
    };
    let n = guests.len() as int;
    let cpu = seq![
        numbered("run.cpu_user_ns"@, sum_of(guests, "cpu_user_ns"@, n) as nat),
        numbered("run.cpu_system_ns"@, sum_of(guests, "cpu_system_ns"@, n) as nat),
    ];
    let failure = match run_failure(o) {
        Some((entry, life)) => seq![
            "run.failure=entry "@ + text::decimal(entry as nat) + ": "@ + described(guests[life]),
            numbered(
                "run.failure_at"@,
                match death_of(o.totals.died_at@, life) {
                    Some(at) => at as nat,
                    None => 0,
                },
            ),
        ],
        None => Seq::empty(),
    };
    stop + limit + cpu + failure
}

fn push_end(o: &RunOutcome, out: &mut Vec<String>)
    requires
        is_whole(*o),
    ensures
        words::texts(final(out)@) == words::texts(old(out)@) + end_lines(*o),
{
    if o.totals.stopped_at != 0 {
        out.push(number_line("run.stopped_at", o.totals.stopped_at));
    }
    if o.wall_limited {
        out.push("run.wall_limited=true".to_owned());
    }
    out.push(number_line("run.cpu_user_ns", sum(&o.guests, "cpu_user_ns")));
    out.push(number_line("run.cpu_system_ns", sum(&o.guests, "cpu_system_ns")));
    match failed_life(o) {
        Some((entry, life)) => {
            assert(launch::outcomes(o.guests@)[life as int] == o.guests@[life as int]@);
            let mut line = "run.failure=entry ".to_owned();
            push_decimal(&mut line, entry as u64);
            line.append(": ");
            line.append(describe_status(&o.guests[life]).as_str());
            out.push(line);
            let at: u64 = if life < o.totals.died_at.len() {
                o.totals.died_at[life]
            } else {
                0
            };
            out.push(number_line("run.failure_at", at));
        },
        None => {},
    }
    assert(words::texts(out@) =~= words::texts(old(out)@) + end_lines(*o));
}

/// Fields every guest reports but that describe the whole run
pub open spec fn is_run_wide(key: Seq<char>) -> bool {
    key == "switches"@ || key == "expiries"@ || key == "schedule_hash"@
}

fn run_wide(key: &str) -> (r: bool)
    ensures
        r == is_run_wide(key@),
{
    same_text(key, "switches") || same_text(key, "expiries") || same_text(key, "schedule_hash")
}

/// `p<i>.key=value`
pub open spec fn own_line(i: int, key: Seq<char>, value: Seq<char>) -> Seq<char> {
    "p"@ + text::decimal(i as nat) + "."@ + key + "="@ + value
}

fn own(i: usize, key: &str, value: &str) -> (r: String)
    ensures
        r@ == own_line(i as int, key@, value@),
{
    let mut out = "p".to_owned();
    push_decimal(&mut out, i as u64);
    out.append(".");
    out.append(key);
    out.append("=");
    out.append(value);
    out
}

/// The first `n` of a process's own fields
pub open spec fn field_lines(i: int, report: fields::Entries, n: int) -> Seq<Seq<char>>
    decreases n,
{
    if n <= 0 {
        Seq::empty()
    } else {
        let before = field_lines(i, report, n - 1);
        if is_run_wide(report[n - 1].0) {
            before
        } else {
            before.push(own_line(i, report[n - 1].0, report[n - 1].1))
        }
    }
}

/// What is said of process `i`
pub open spec fn process_lines(
    i: int,
    g: OutcomeView,
    died_at: Option<u64>,
    entry: Option<usize>,
) -> Seq<Seq<char>> {
    let status = seq![own_line(i, "status"@, described(g))];
    let death = match died_at {
        Some(at) => seq![own_line(i, "died_at"@, text::decimal(at as nat))],
        None => Seq::empty(),
    };
    let life = match entry {
        Some(e) => seq![own_line(i, "entry"@, text::decimal(e as nat))],
        None => Seq::empty(),
    };
    let files = match (g.program, g.image) {
        (Some(p), Some(image)) => seq![
            own_line(i, "program"@, p),
            own_line(i, "image"@, image),
        ],
        _ => Seq::empty(),
    };
    status + death + life + files + field_lines(i, g.report, g.report.len() as int)
}

fn decimal_text(n: u64) -> (r: String)
    ensures
        r@ == text::decimal(n as nat),
{
    let mut out = String::new();
    push_decimal(&mut out, n);
    assert(out@ =~= text::decimal(n as nat));
    out
}

fn push_process(
    i: usize,
    g: &Outcome,
    died_at: Option<u64>,
    entry: Option<usize>,
    out: &mut Vec<String>,
)
    ensures
        words::texts(final(out)@) == words::texts(old(out)@) + process_lines(
            i as int,
            g@,
            died_at,
            entry,
        ),
{
    let ghost was = words::texts(out@);
    out.push(own(i, "status", describe_status(g).as_str()));
    match died_at {
        Some(at) => out.push(own(i, "died_at", decimal_text(at).as_str())),
        None => {},
    }
    // Lives of one run-file entry share its number
    match entry {
        Some(e) => out.push(own(i, "entry", decimal_text(e as u64).as_str())),
        None => {},
    }
    match (&g.program, &g.image) {
        (Some(p), Some(image)) => {
            out.push(own(i, "program", p.as_str()));
            out.push(own(i, "image", image.as_str()));
        },
        _ => {},
    }
    let ghost head = words::texts(out@);
    let ghost none = field_lines(i as int, g@.report, 0);
    assert(head =~= was + process_lines(i as int, g@, died_at, entry).take(
        head.len() - was.len(),
    ));
    let f = &g.report.fields;
    let mut k: usize = 0;
    assert(words::texts(out@) =~= head + none);
    while k < f.len()
        invariant
            k <= f@.len(),
            f@ == g.report.fields@,
            words::texts(out@) == head + field_lines(i as int, g@.report, k as int),
        decreases f@.len() - k,
    {
        let ghost now = words::texts(out@);
        assert(g@.report[k as int] == (f@[k as int].0@, f@[k as int].1@));
        if !run_wide(f[k].0.as_str()) {
            let line = own(i, f[k].0.as_str(), f[k].1.as_str());
            out.push(line);
            assert(words::texts(out@) =~= now.push(line@));
            assert(now.push(line@) =~= head + field_lines(i as int, g@.report, k as int).push(
                line@,
            ));
        }
        k += 1;
    }
    assert(words::texts(out@) =~= was + process_lines(i as int, g@, died_at, entry));
}

/// What is said of the first `n` processes
pub open spec fn all_process_lines(
    guests: Seq<OutcomeView>,
    died_at: Seq<u64>,
    specs: Seq<Option<usize>>,
    n: int,
) -> Seq<Seq<char>>
    decreases n,
{
    if n <= 0 {
        Seq::empty()
    } else {
        all_process_lines(guests, died_at, specs, n - 1) + process_lines(
            n - 1,
            guests[n - 1],
            death_of(died_at, n - 1),
            specs[n - 1],
        )
    }
}

/// The report of a run
pub open spec fn report_of(o: RunOutcome) -> Seq<Seq<char>> {
    head_lines(o) + end_lines(o) + all_process_lines(
        launch::outcomes(o.guests@),
        o.totals.died_at@,
        o.specs@,
        o.guests@.len() as int,
    )
}

/// The aggregated report: run-wide totals, then each process's own fields.
pub fn run_report(o: &RunOutcome) -> (r: Vec<String>)
    requires
        is_whole(*o),
    ensures
        words::texts(r@) == report_of(*o),
{
    let mut out: Vec<String> = Vec::new();
    assert(words::texts(out@) =~= Seq::empty());
    push_head(o, &mut out);
    push_end(o, &mut out);
    let ghost head = head_lines(*o) + end_lines(*o);
    let ghost guests = launch::outcomes(o.guests@);
    assert(words::texts(out@) =~= head);
    assert(head =~= head + all_process_lines(guests, o.totals.died_at@, o.specs@, 0));
    let mut i: usize = 0;
    while i < o.guests.len()
        invariant
            is_whole(*o),
            i <= o.guests@.len(),
            guests == launch::outcomes(o.guests@),
            words::texts(out@) == head + all_process_lines(
                guests,
                o.totals.died_at@,
                o.specs@,
                i as int,
            ),
        decreases o.guests@.len() - i,
    {
        assert(guests[i as int] == o.guests@[i as int]@);
        let died_at: Option<u64> = if i < o.totals.died_at.len() {
            Some(o.totals.died_at[i])
        } else {
            None
        };
        let ghost now = words::texts(out@);
        push_process(i, &o.guests[i], died_at, o.specs[i], &mut out);
        i += 1;
        assert(words::texts(out@) =~= head + all_process_lines(
            guests,
            o.totals.died_at@,
            o.specs@,
            i as int,
        ));
    }
    out
}

/// What must agree between runs: each guest's exit status and stdout, and
/// the run-wide schedule hash
pub struct Observed {
    pub guests: Vec<(String, String)>,
    pub hash: String,
}

/// Two runs agree.
pub open spec fn agree(a: Observed, b: Observed) -> bool {
    fields::pairs(a.guests@) == fields::pairs(b.guests@) && a.hash@ == b.hash@
}

pub fn same_run(a: &Observed, b: &Observed) -> (r: bool)
    ensures
        r == agree(*a, *b),
{
    if !same_text(a.hash.as_str(), b.hash.as_str()) {
        return false;
    }
    let ghost x = fields::pairs(a.guests@);
    let ghost y = fields::pairs(b.guests@);
    if a.guests.len() != b.guests.len() {
        assert(x.len() != y.len());
        return false;
    }
    let mut i: usize = 0;
    while i < a.guests.len()
        invariant
            i <= a.guests@.len() == b.guests@.len(),
            x == fields::pairs(a.guests@),
            y == fields::pairs(b.guests@),
            forall|k: int| 0 <= k < i ==> #[trigger] x[k] == y[k],
        decreases a.guests@.len() - i,
    {
        let (p, q) = (&a.guests[i], &b.guests[i]);
        assert(x[i as int] == (p.0@, p.1@) && y[i as int] == (q.0@, q.1@));
        if !same_text(p.0.as_str(), q.0.as_str()) || !same_text(p.1.as_str(), q.1.as_str()) {
            assert(x[i as int] != y[i as int]);
            return false;
        }
        i += 1;
    }
    assert(x =~= y);
    true
}

/// What is observed of a single guest
pub fn observe_single(o: &Outcome, stdout: String) -> (r: Observed)
    ensures
        fields::pairs(r.guests@) == seq![(described(o@), stdout@)],
        r.hash@ == (match fields::find(o@.report, "schedule_hash"@) {
            Some(h) => h,
            None => Seq::empty(),
        }),
{
    let hash = match o.report.get("schedule_hash") {
        Some(h) => h.clone(),
        None => {
            let none = String::new();
            assert(none@ =~= Seq::<char>::empty());
            none
        },
    };
    let mut guests: Vec<(String, String)> = Vec::new();
    guests.push((describe_status(o), stdout));
    assert(fields::pairs(guests@) =~= seq![(described(o@), stdout@)]);
    Observed { guests, hash }
}

/// What is observed of a run, with what each guest printed
pub fn observe_run(o: &RunOutcome, stdouts: &Vec<String>) -> (r: Observed)
    requires
        stdouts@.len() == o.guests@.len(),
    ensures
        fields::pairs(r.guests@) == Seq::new(
            o.guests@.len(),
            |i: int| (described(o.guests@[i]@), stdouts@[i]@),
        ),
        r.hash@ == words::padded(o.totals.counts.schedule_hash as nat, 16, 16),
{
    let mut guests: Vec<(String, String)> = Vec::new();
    let ghost all = Seq::new(
        o.guests@.len(),
        |i: int| (described(o.guests@[i]@), stdouts@[i]@),
    );
    let mut i: usize = 0;
    while i < o.guests.len()
        invariant
            i <= o.guests@.len() == stdouts@.len(),
            all == Seq::new(
                o.guests@.len(),
                |i: int| (described(o.guests@[i]@), stdouts@[i]@),
            ),
            guests@.len() == i,
            forall|k: int| 0 <= k < i ==> #[trigger] fields::pairs(guests@)[k] == all[k],
        decreases o.guests@.len() - i,
    {
        let ghost was = fields::pairs(guests@);
        let p = (describe_status(&o.guests[i]), stdouts[i].clone());
        guests.push(p);
        assert(fields::pairs(guests@) =~= was.push((p.0@, p.1@)));
        i += 1;
    }
    assert(fields::pairs(guests@) =~= all);
    let mut hash = String::new();
    push_padded(&mut hash, o.totals.counts.schedule_hash, 16, 16);
    assert(hash@ =~= words::padded(o.totals.counts.schedule_hash as nat, 16, 16));
    Observed { guests, hash }
}

/// How a process ended is how its status says: `c << 8` is an exit with code
/// `c`, a signal's number is a death by that signal, and what the run's stop
/// ended counts as an exit with 0.
pub proof fn an_end_is_what_its_status_says(o: OutcomeView, c: i32, s: i32)
    requires
        0 <= c <= 255,
        1 <= s <= 126,
    ensures
        o.stopped ==> exit_for(o) == Exit::Code(0) && !failed(o) && described(o) == "stopped"@,
        !o.stopped && o.status == 256 * c ==> exit_for(o) == Exit::Code(c as u8) && (failed(o)
            <==> c != 0) && described(o) == "exit "@ + words::signed(c as int),
        !o.stopped && o.status == s ==> exit_for(o) == Exit::Killed(s) && failed(o) && described(o)
            == "signal "@ + words::signed(s as int),
{
    let x: i32 = (256 * c) as i32;
    assert(x & 0x7f == 0 && (x >> 8) & 0xff == c) by (bit_vector)
        requires
            0 <= c <= 255,
            x == 256 * c,
    ;
    assert(s & 0x7f != 0 && s & 0x7f != 0x7f && s & 0x7f == s) by (bit_vector)
        requires
            1 <= s <= 126,
    ;
}

proof fn lemma_life_found(specs: Seq<Option<usize>>, entry: usize, life: int, n: int)
    requires
        0 <= life < n <= specs.len(),
        specs[life] == Some(entry),
        forall|k: int| life < k < n ==> specs[k] != Some(entry),
    ensures
        last_life(specs, entry, n) == Some(life),
    decreases n,
{
    if life < n - 1 {
        lemma_life_found(specs, entry, life, n - 1);
    }
}

/// Any other failure does fail a run: where the last life of an entry that is
/// no daemon neither exited 0 nor was ended by the run's stop, the run fails,
/// by that entry or an earlier one.
pub proof fn a_failed_process_fails_its_run(
    guests: Seq<OutcomeView>,
    specs: Seq<Option<usize>>,
    daemons: Seq<bool>,
    from: int,
    entry: int,
    life: int,
)
    requires
        0 <= from <= entry < daemons.len() <= usize::MAX,
        !daemons[entry],
        0 <= life < specs.len(),
        specs[life] == Some(entry as usize),
        forall|k: int| life < k < specs.len() ==> specs[k] != Some(entry as usize),
        !guests[life].stopped,
        launch::code_in(guests[life].status) != Some(0i32),
    ensures
        failure_from(guests, specs, daemons, from) matches Some((e, l)) && from <= e <= entry && (e
            == entry ==> l == life),
    decreases entry - from,
{
    if from < entry {
        a_failed_process_fails_its_run(guests, specs, daemons, from + 1, entry, life);
    } else {
        lemma_life_found(specs, entry as usize, life, specs.len() as int);
    }
}

/// A run that failed says so in its report, with the entry that failed it and how
/// it ended; every process's end is told under its number.
pub proof fn a_report_tells_the_ends(o: RunOutcome, i: int)
    requires
        is_whole(o),
        0 <= i < o.guests@.len(),
    ensures
        run_failure(o) matches Some((entry, life)) ==> report_of(o).contains(
            "run.failure=entry "@ + text::decimal(entry as nat) + ": "@ + described(
                launch::outcomes(o.guests@)[life],
            ),
        ),
        report_of(o).contains(
            "p"@ + text::decimal(i as nat) + "."@ + "status"@ + "="@ + described(o.guests@[i]@),
        ),
{
    let all = report_of(o);
    let guests = launch::outcomes(o.guests@);
    let head = head_lines(o);
    let end = end_lines(o);
    let rest = all_process_lines(guests, o.totals.died_at@, o.specs@, o.guests@.len() as int);
    if let Some((entry, life)) = run_failure(o) {
        let line = "run.failure=entry "@ + text::decimal(entry as nat) + ": "@ + described(
            guests[life],
        );
        assert(end[end.len() - 2] == line);
        assert(all[head.len() + end.len() - 2] == line);
    }
    lemma_status_told(guests, o.totals.died_at@, o.specs@, o.guests@.len() as int, i);
    let status = own_line(i, "status"@, described(guests[i]));
    let k = choose|k: int| 0 <= k < rest.len() && rest[k] == status;
    assert(all[head.len() + end.len() + k] == status);
    assert(guests[i] == o.guests@[i]@);
}

proof fn lemma_status_told(
    guests: Seq<OutcomeView>,
    died_at: Seq<u64>,
    specs: Seq<Option<usize>>,
    n: int,
    i: int,
)
    requires
        0 <= i < n,
    ensures
        all_process_lines(guests, died_at, specs, n).contains(
            own_line(i, "status"@, described(guests[i])),
        ),
    decreases n,
{
    let status = own_line(i, "status"@, described(guests[i]));
    let before = all_process_lines(guests, died_at, specs, n - 1);
    let own = process_lines(n - 1, guests[n - 1], death_of(died_at, n - 1), specs[n - 1]);
    let all = all_process_lines(guests, died_at, specs, n);
    if i < n - 1 {
        lemma_status_told(guests, died_at, specs, n - 1, i);
        let k = choose|k: int| 0 <= k < before.len() && before[k] == status;
        assert(all[k] == status);
    } else {
        assert(own[0] == status);
        assert(all[before.len() as int] == status);
    }
}

} // verus!
