//! How a run ended, as its report says, for the tools that run one run file
//! many times over to look into a failing seed (`bisect`, `suspects`).

use vstd::prelude::*;
use crate::environ;
use crate::fields;
use crate::text;
use crate::text::{chars_of, lines, parse_unsigned, same_chars, split_once, string_of, trim};
use crate::words;
use crate::words::{after_prefix, before_suffix, push_padded, split_once_last, split_once_text};

pub use crate::units::ms;

verus! {

/// What a run's report says about how it ended
pub struct Ending {
    /// The run-file entry that failed the run and its status
    pub failure: Option<(u64, String)>,
    pub failure_at: u64,
    pub schedule_hash: String,
    /// How each process ended, by `p<N>`
    pub statuses: Vec<(String, String)>,
    /// Which entry each process was a life of, by `p<N>`
    pub entries: Vec<(String, String)>,
    /// What each process ran, by `p<N>`: the original program, and the
    /// executable made from it
    pub programs: Vec<(String, String)>,
    pub images: Vec<(String, String)>,
    pub timed_out: bool,
}

pub struct EndingView {
    pub failure: Option<(u64, Seq<char>)>,
    pub failure_at: u64,
    pub schedule_hash: Seq<char>,
    pub statuses: fields::Entries,
    pub entries: fields::Entries,
    pub programs: fields::Entries,
    pub images: fields::Entries,
    pub timed_out: bool,
}

impl View for Ending {
    type V = EndingView;

    open spec fn view(&self) -> EndingView {
        EndingView {
            failure: match self.failure {
                Some((n, s)) => Some((n, s@)),
                None => None,
            },
            failure_at: self.failure_at,
            schedule_hash: self.schedule_hash@,
            statuses: fields::pairs(self.statuses@),
            entries: fields::pairs(self.entries@),
            programs: fields::pairs(self.programs@),
            images: fields::pairs(self.images@),
            timed_out: self.timed_out,
        }
    }
}

/// A number of 64 bits
pub open spec fn number(s: Seq<char>) -> Option<u64> {
    match text::unsigned_value(s, 10, u64::MAX as nat) {
        Some(n) => Some(n as u64),
        None => None,
    }
}

/// `entry N: status`
pub open spec fn failure_of(v: Seq<char>) -> Option<(u64, Seq<char>)> {
    match words::after(v, "entry "@) {
        Some(rest) => match words::split_at_text(rest, ": "@) {
            Some((n, status)) => match number(n) {
                Some(n) => Some((n, status)),
                None => None,
            },
            None => None,
        },
        None => None,
    }
}

impl EndingView {
    /// A report that says nothing
    pub open spec fn nothing() -> EndingView {
        EndingView {
            failure: None,
            failure_at: 0,
            schedule_hash: Seq::empty(),
            statuses: Seq::empty(),
            entries: Seq::empty(),
            programs: Seq::empty(),
            images: Seq::empty(),
            timed_out: false,
        }
    }

    /// With what a field says
    pub open spec fn with_field(self, key: Seq<char>, value: Seq<char>) -> EndingView {
        if key == "run.failure"@ {
            EndingView { failure: failure_of(value), ..self }
        } else if key == "run.failure_at"@ {
            EndingView {
                failure_at: match number(value) {
                    Some(n) => n,
                    None => 0,
                },
                ..self
            }
        } else if key == "run.schedule_hash"@ {
            EndingView { schedule_hash: value, ..self }
        } else {
            match words::before(key, ".status"@) {
                Some(p) => EndingView { statuses: fields::put(self.statuses, p, value), ..self },
                None => match words::before(key, ".entry"@) {
                    Some(p) => if number(value) is Some {
                        EndingView { entries: fields::put(self.entries, p, value), ..self }
                    } else {
                        self
                    },
                    None => match words::before(key, ".program"@) {
                        Some(p) => EndingView {
                            programs: fields::put(self.programs, p, value),
                            ..self
                        },
                        None => match words::before(key, ".image"@) {
                            Some(p) => EndingView {
                                images: fields::put(self.images, p, value),
                                ..self
                            },
                            None => self,
                        },
                    },
                },
            }
        }
    }

    /// With what the first `n` lines of a report say
    pub open spec fn with_lines(self, lines: Seq<Seq<char>>, n: int) -> EndingView
        decreases n,
    {
        if n <= 0 {
            self
        } else {
            let e = self.with_lines(lines, n - 1);
            match text::split_at_first(lines[n - 1], '=') {
                Some((key, value)) => e.with_field(key, value),
                None => e,
            }
        }
    }

    /// What a report says
    pub open spec fn of(report: Seq<char>) -> EndingView {
        let lines = text::lines_of(report);
        EndingView::nothing().with_lines(lines, lines.len() as int)
    }

    /// Process `i` of those with an entry: its number and its status, if it
    /// is a life of `entry` and has both
    pub open spec fn life(self, entry: u64, i: int) -> Option<(u64, Seq<char>)> {
        let (name, value) = self.entries[i];
        if number(value) != Some(entry) {
            None
        } else {
            match words::after(name, "p"@) {
                Some(digits) => match (number(digits), fields::find(self.statuses, name)) {
                    (Some(n), Some(status)) => Some((n, status)),
                    _ => None,
                },
                None => None,
            }
        }
    }

    /// Of the first `n`, the last life of `entry`. Processes are numbered in
    /// order of creation: the highest of an entry is its last life.
    pub open spec fn last_of(self, entry: u64, n: int) -> Option<(u64, Seq<char>)>
        decreases n,
    {
        if n <= 0 {
            None
        } else {
            let before = self.last_of(entry, n - 1);
            match self.life(entry, n - 1) {
                None => before,
                Some((number, status)) => match before {
                    Some((highest, _)) => if number >= highest {
                        Some((number, status))
                    } else {
                        before
                    },
                    None => Some((number, status)),
                },
            }
        }
    }

    /// The status of an entry's last life
    pub open spec fn last_status(self, entry: u64) -> Option<Seq<char>> {
        match self.last_of(entry, self.entries.len() as int) {
            Some((_, status)) => Some(status),
            None => None,
        }
    }

    /// What the first life of `entry` from `i` on that says so ran: the
    /// original program and the executable made from it
    pub open spec fn files_from(self, entry: u64, i: int) -> Option<(Seq<char>, Seq<char>)>
        decreases self.entries.len() - i,
    {
        if i < 0 || i >= self.entries.len() {
            None
        } else {
            let (name, value) = self.entries[i];
            match (
                number(value) == Some(entry),
                fields::find(self.programs, name),
                fields::find(self.images, name),
            ) {
                (true, Some(program), Some(image)) => Some((program, image)),
                _ => self.files_from(entry, i + 1),
            }
        }
    }

    /// The same entry ended with the same status as in the reference.
    pub open spec fn fails_like(self, reference: EndingView) -> bool {
        match reference.failure {
            Some((entry, status)) => self.last_status(entry) == Some(status),
            None => false,
        }
    }
}

fn number_of(chars: &Vec<char>) -> (r: Option<u64>)
    ensures
        r == number(chars@),
{
    parse_unsigned(chars, 10, u64::MAX)
}

fn read_failure(v: &Vec<char>) -> (r: Option<(u64, String)>)
    ensures
        match r {
            Some((n, s)) => Some((n, s@)),
            None => None,
        } == failure_of(v@),
{
    match after_prefix(v, "entry ") {
        Some(rest) => match split_once_text(&rest, ": ") {
            Some((n, status)) => match number_of(&n) {
                Some(n) => Some((n, string_of(&status))),
                None => None,
            },
            None => None,
        },
        None => None,
    }
}

fn is(chars: &Vec<char>, s: &str) -> (r: bool)
    ensures
        r == (chars@ == s@),
{
    same_chars(chars, &chars_of(s))
}

impl Ending {
    pub fn new() -> (r: Ending)
        ensures
            r@ == EndingView::nothing(),
    {
        let r = Ending {
            failure: None,
            failure_at: 0,
            schedule_hash: String::new(),
            statuses: Vec::new(),
            entries: Vec::new(),
            programs: Vec::new(),
            images: Vec::new(),
            timed_out: false,
        };
        assert(r@.schedule_hash =~= Seq::<char>::empty());
        assert(r@.statuses =~= Seq::empty());
        assert(r@.entries =~= Seq::empty());
        assert(r@.programs =~= Seq::empty());
        assert(r@.images =~= Seq::empty());
        r
    }

    fn take_field(&mut self, key: &Vec<char>, value: &Vec<char>)
        ensures
            final(self)@ == old(self)@.with_field(key@, value@),
    {
        if is(key, "run.failure") {
            self.failure = read_failure(value);
            return;
        }
        if is(key, "run.failure_at") {
            self.failure_at = match number_of(value) {
                Some(n) => n,
                None => 0,
            };
            return;
        }
        if is(key, "run.schedule_hash") {
            self.schedule_hash = string_of(value);
            return;
        }
        match before_suffix(key, ".status") {
            Some(p) => {
                fields::set(&mut self.statuses, string_of(&p), string_of(value));
                return;
            },
            None => {},
        }
        match before_suffix(key, ".entry") {
            Some(p) => {
                if number_of(value).is_some() {
                    fields::set(&mut self.entries, string_of(&p), string_of(value));
                }
                return;
            },
            None => {},
        }
        match before_suffix(key, ".program") {
            Some(p) => {
                fields::set(&mut self.programs, string_of(&p), string_of(value));
                return;
            },
            None => {},
        }
        match before_suffix(key, ".image") {
            Some(p) => {
                fields::set(&mut self.images, string_of(&p), string_of(value));
            },
            None => {},
        }
    }

    pub fn parse(stderr: &str) -> (r: Ending)
        ensures
            r@ == EndingView::of(stderr@),
    {
        let mut e = Ending::new();
        let all = lines(stderr);
        let ghost ls = text::lines_of(stderr@);
        let mut i: usize = 0;
        while i < all.len()
            invariant
                i <= all@.len() == ls.len(),
                forall|k: int| 0 <= k < all.len() ==> #[trigger] all@[k]@ == ls[k],
                e@ == EndingView::nothing().with_lines(ls, i as int),
            decreases all@.len() - i,
        {
            assert(all@[i as int]@ == ls[i as int]);
            match split_once(&all[i], '=') {
                Some((key, value)) => {
                    e.take_field(&key, &value);
                },
                None => {},
            }
            i += 1;
        }
        e
    }

    fn life(&self, entry: u64, i: usize) -> (r: Option<(u64, &String)>)
        requires
            i < self.entries@.len(),
        ensures
            match r {
                Some((n, s)) => Some((n, s@)),
                None => None,
            } == self@.life(entry, i as int),
    {
        let name = &self.entries[i].0;
        let value = chars_of(self.entries[i].1.as_str());
        match number_of(&value) {
            Some(n) => if n != entry {
                return None;
            },
            None => {
                return None;
            },
        }
        match after_prefix(&chars_of(name.as_str()), "p") {
            Some(digits) => match (
                number_of(&digits),
                fields::get(&self.statuses, name.as_str()),
            ) {
                (Some(n), Some(status)) => Some((n, status)),
                _ => None,
            },
            None => None,
        }
    }

    /// The status of an entry's last life
    pub fn last_status(&self, entry: u64) -> (r: Option<&String>)
        ensures
            match r {
                Some(s) => Some(s@),
                None => None,
            } == self@.last_status(entry),
    {
        let mut last: Option<(u64, &String)> = None;
        let mut i: usize = 0;
        while i < self.entries.len()
            invariant
                i <= self.entries@.len(),
                match last {
                    Some((n, s)) => Some((n, s@)),
                    None => None,
                } == self@.last_of(entry, i as int),
            decreases self.entries@.len() - i,
        {
            match self.life(entry, i) {
                Some((n, status)) => {
                    last = match last {
                        Some((highest, s)) => if n >= highest {
                            Some((n, status))
                        } else {
                            Some((highest, s))
                        },
                        None => Some((n, status)),
                    };
                },
                None => {},
            }
            i += 1;
        }
        match last {
            Some((_, s)) => Some(s),
            None => None,
        }
    }

    /// What an entry ran: the original program and the executable made from
    /// it
    pub fn files_of(&self, entry: u64) -> (r: Option<(String, String)>)
        ensures
            match r {
                Some((program, image)) => Some((program@, image@)),
                None => None,
            } == self@.files_from(entry, 0),
    {
        let mut i: usize = 0;
        while i < self.entries.len()
            invariant
                i <= self.entries@.len(),
                self@.files_from(entry, 0) == self@.files_from(entry, i as int),
            decreases self.entries@.len() - i,
        {
            let name = self.entries[i].0.as_str();
            let own: bool = match number_of(&chars_of(self.entries[i].1.as_str())) {
                Some(n) => n == entry,
                None => false,
            };
            assert(self@.entries[i as int] == (
                self.entries@[i as int].0@,
                self.entries@[i as int].1@,
            ));
            if own {
                match (fields::get(&self.programs, name), fields::get(&self.images, name)) {
                    (Some(program), Some(image)) => {
                        return Some((program.clone(), image.clone()));
                    },
                    _ => {},
                }
            }
            i += 1;
        }
        None
    }

    /// Whether this run failed as `reference` did: the same entry ended with
    /// the same status, whatever else went wrong besides.
    pub fn fails_like(&self, reference: &Ending) -> (r: bool)
        ensures
            r == self@.fails_like(reference@),
    {
        match &reference.failure {
            Some((entry, status)) => match self.last_status(*entry) {
                Some(s) => text::same_text(s.as_str(), status.as_str()),
                None => false,
            },
            None => false,
        }
    }
}

/// Running one run file many times over
pub struct Replay {
    pub manifest: String,
    /// The tool's own directory under the scratch directory
    pub dir: String,
    /// Every option of the run, the seed included, spelled out: what is
    /// given on the command line is not the run file's to change
    pub pass: Vec<String>,
}

/// A slot's own file or directory
pub open spec fn slot_path(dir: Seq<char>, name: Seq<char>, slot: u32) -> Seq<char> {
    dir + name + words::padded(slot as nat, 10, 2)
}

/// The options of a run in a slot
pub open spec fn slot_arguments(r: Replay, slot: u32, extra: Seq<Seq<char>>) -> Seq<Seq<char>> {
    seq!["run"@, "--capture"@] + words::texts(r.pass@) + extra + seq![
        "--scratch"@,
        slot_path(r.dir@, "/slot"@, slot),
        "--manifest"@,
        r.manifest@,
    ]
}

fn push_all(out: &mut Vec<String>, more: &Vec<String>)
    ensures
        words::texts(final(out)@) == words::texts(old(out)@) + words::texts(more@),
{
    let ghost was = words::texts(out@);
    let ghost all = words::texts(more@);
    let mut i: usize = 0;
    assert(was + all.take(0) =~= was);
    while i < more.len()
        invariant
            i <= more@.len(),
            all == words::texts(more@),
            words::texts(out@) == was + all.take(i as int),
        decreases more@.len() - i,
    {
        let ghost now = words::texts(out@);
        assert(all[i as int] == more@[i as int]@);
        out.push(more[i].as_str().to_owned());
        assert(words::texts(out@) =~= now.push(all[i as int]));
        assert(all.take(i + 1) =~= all.take(i as int).push(all[i as int]));
        i += 1;
        assert(words::texts(out@) =~= was + all.take(i as int));
    }
    assert(all.take(i as int) =~= all);
}

impl Replay {
    fn in_slot(&self, name: &str, slot: u32) -> (r: String)
        ensures
            r@ == slot_path(self.dir@, name@, slot),
    {
        let mut out = String::new();
        out.append(self.dir.as_str());
        out.append(name);
        push_padded(&mut out, slot as u64, 10, 2);
        assert(out@ =~= slot_path(self.dir@, name@, slot));
        out
    }

    /// Where a slot's schedule trace goes. Slots are two digits wide so that
    /// every run's paths are as long: a guest's environment holds its host
    /// directory, and the environment's size places its stack.
    pub fn trace_path(&self, slot: u32) -> (r: String)
        ensures
            r@ == slot_path(self.dir@, "/trace."@, slot),
    {
        self.in_slot("/trace.", slot)
    }

    /// Where a slot's mask goes
    pub fn mask_path(&self, slot: u32) -> (r: String)
        ensures
            r@ == slot_path(self.dir@, "/mask."@, slot),
    {
        self.in_slot("/mask.", slot)
    }

    /// The arguments of one run in slot `slot`, which has its own scratch
    /// directory. No run differs from another in anything but `extra` and
    /// its mask.
    pub fn arguments(&self, slot: u32, extra: &Vec<String>) -> (r: Vec<String>)
        ensures
            words::texts(r@) == slot_arguments(*self, slot, words::texts(extra@)),
    {
        let mut out: Vec<String> = Vec::new();
        out.push("run".to_owned());
        out.push("--capture".to_owned());
        assert(words::texts(out@) =~= seq!["run"@, "--capture"@]);
        push_all(&mut out, &self.pass);
        push_all(&mut out, extra);
        let ghost head = words::texts(out@);
        out.push("--scratch".to_owned());
        out.push(self.in_slot("/slot", slot));
        out.push("--manifest".to_owned());
        out.push(self.manifest.as_str().to_owned());
        assert(words::texts(out@) =~= head + seq![
            "--scratch"@,
            slot_path(self.dir@, "/slot"@, slot),
            "--manifest"@,
            self.manifest@,
        ]);
        assert(words::texts(out@) =~= slot_arguments(*self, slot, words::texts(extra@)));
        out
    }
}

/// The paths of two slots are as long.
pub proof fn slots_are_equally_long(dir: Seq<char>, name: Seq<char>, a: u32, b: u32)
    requires
        a < 100,
        b < 100,
    ensures
        slot_path(dir, name, a).len() == slot_path(dir, name, b).len(),
{
    reveal_with_fuel(environ::tens, 3);
    environ::lemma_padded_len(a as nat, 2);
    environ::lemma_padded_len(b as nat, 2);
}

/// How many runs go on at a time: slot 0 is left to the caller's own runs.
pub fn job_count(jobs: u32) -> (r: u32)
    ensures
        r == (if jobs < 1 {
            1
        } else if jobs > 98 {
            98
        } else {
            jobs
        }),
{
    if jobs < 1 {
        1
    } else if jobs > 98 {
        98
    } else {
        jobs
    }
}

/// The runs of one job of `jobs`, of `n` in all: every `jobs`-th from its own
/// on
pub open spec fn shares(job: int, jobs: int, n: int) -> Seq<usize>
    decreases
            if job < n {
                n - job
            } else {
                0
            },
    when jobs > 0
{
    if job >= n {
        Seq::empty()
    } else {
        seq![job as usize] + shares(job + jobs, jobs, n)
    }
}

pub fn share_of(job: usize, jobs: usize, n: usize) -> (r: Vec<usize>)
    requires
        job < jobs,
    ensures
        r@ == shares(job as int, jobs as int, n as int),
{
    let mut out: Vec<usize> = Vec::new();
    let mut i: usize = job;
    assert(out@ + shares(i as int, jobs as int, n as int) =~= shares(
        i as int,
        jobs as int,
        n as int,
    ));
    while i < n
        invariant
            job < jobs,
            out@ + shares(i as int, jobs as int, n as int) == shares(
                job as int,
                jobs as int,
                n as int,
            ),
        decreases n - i,
    {
        let ghost was = out@;
        out.push(i);
        assert(was + shares(i as int, jobs as int, n as int) =~= out@ + shares(
            i + jobs,
            jobs as int,
            n as int,
        ));
        if jobs >= n - i {
            assert(out@ + shares(i + jobs, jobs as int, n as int) =~= out@);
            return out;
        }
        i = i + jobs;
    }
    assert(out@ + shares(i as int, jobs as int, n as int) =~= out@);
    out
}

proof fn lemma_shares(job: int, jobs: int, n: int, i: int)
    requires
        0 <= job,
        jobs > 0,
        n <= usize::MAX,
    ensures
        shares(job, jobs, n).contains(i as usize) && 0 <= i <= usize::MAX ==> job <= i < n && (i
            - job) % jobs == 0,
        job <= i < n && (i - job) % jobs == 0 ==> shares(job, jobs, n).contains(i as usize),
    decreases
            if job < n {
                n - job
            } else {
                0
            },
{
    if job < n {
        lemma_shares(job + jobs, jobs, n, i);
        let rest = shares(job + jobs, jobs, n);
        let all = shares(job, jobs, n);
        vstd::arithmetic::div_mod::lemma_mod_sub_multiples_vanish(i - job, jobs);
        assert((i - (job + jobs)) % jobs == (i - job) % jobs) by {
            assert(i - (job + jobs) == -jobs + (i - job));
        }
        if all.contains(i as usize) {
            let k = choose|k: int| 0 <= k < all.len() && all[k] == i as usize;
            if k > 0 {
                assert(rest[k - 1] == i as usize);
            } else if 0 <= i <= usize::MAX {
                assert(0int % jobs == 0);
            }
        }
        if job <= i < n && (i - job) % jobs == 0 {
            if i == job {
                assert(all[0] == i as usize);
            } else {
                if i < job + jobs {
                    vstd::arithmetic::div_mod::lemma_small_mod((i - job) as nat, jobs as nat);
                }
                let k = choose|k: int| 0 <= k < rest.len() && rest[k] == i as usize;
                assert(all[k + 1] == i as usize);
            }
        }
    }
}

/// Every run is one job's: run `i` is in the share of just the job that it
/// leaves over.
pub proof fn every_run_is_one_jobs(job: int, jobs: int, n: int, i: int)
    requires
        0 <= job < jobs,
        0 <= i < n <= usize::MAX,
    ensures
        shares(job, jobs, n).contains(i as usize) <==> i % jobs == job,
{
    lemma_shares(job, jobs, n, i);
    vstd::arithmetic::div_mod::lemma_fundamental_div_mod(i, jobs);
    vstd::arithmetic::div_mod::lemma_mod_bound(i, jobs);
    if i % jobs == job {
        let q = i / jobs;
        assert(i - job == jobs * q);
        assert(0 <= q) by {
            vstd::arithmetic::div_mod::lemma_div_pos_is_pos(i, jobs);
        }
        assert(job <= i) by (nonlinear_arith)
            requires
                i - job == jobs * q,
                0 <= q,
                0 < jobs,
        ;
        vstd::arithmetic::div_mod::lemma_mod_multiples_basic(q, jobs);
        assert(jobs * q == q * jobs) by (nonlinear_arith);
    } else if shares(job, jobs, n).contains(i as usize) {
        vstd::arithmetic::div_mod::lemma_fundamental_div_mod(i - job, jobs);
        let q = (i - job) / jobs;
        assert(i == jobs * q + job);
        assert(jobs * q == q * jobs) by (nonlinear_arith);
        vstd::arithmetic::div_mod::lemma_fundamental_div_mod_converse(i, jobs, q, job);
    }
}

/// The timeout, in milliseconds, for the runs that follow a reference run
/// that took `took_ms`
pub fn timeout_after(took_ms: u64) -> (r: u64)
    ensures
        r == (if took_ms * 20 > u64::MAX {
            u64::MAX as int
        } else if took_ms * 20 < 10_000 {
            10_000
        } else {
            took_ms * 20
        }),
{
    match took_ms.checked_mul(20) {
        Some(t) => if t < 10_000 {
            10_000
        } else {
            t
        },
        None => u64::MAX,
    }
}

/// The clock a line of a schedule trace ends with
pub open spec fn clock_of(line: Seq<char>) -> Option<u64> {
    match words::split_at_last(line, "clock="@) {
        Some((_, v)) => number(text::trimmed(v)),
        None => None,
    }
}

/// The first `n` lines that have a clock, with it
pub open spec fn clocked(lines: Seq<Seq<char>>, n: int) -> Seq<(u64, Seq<char>)>
    decreases n,
{
    if n <= 0 {
        Seq::empty()
    } else {
        match clock_of(lines[n - 1]) {
            Some(t) => clocked(lines, n - 1).push((t, lines[n - 1])),
            None => clocked(lines, n - 1),
        }
    }
}

/// Lines of a schedule trace as (clock, line)
pub fn trace_lines(trace: &str) -> (r: Vec<(u64, String)>)
    ensures
        r@.map_values(|p: (u64, String)| (p.0, p.1@)) == clocked(
            text::lines_of(trace@),
            text::lines_of(trace@).len() as int,
        ),
{
    let all = lines(trace);
    let ghost ls = text::lines_of(trace@);
    let mut out: Vec<(u64, String)> = Vec::new();
    let mut i: usize = 0;
    assert(out@.map_values(|p: (u64, String)| (p.0, p.1@)) =~= Seq::<(u64, Seq<char>)>::empty());
    while i < all.len()
        invariant
            i <= all@.len() == ls.len(),
            forall|k: int| 0 <= k < all.len() ==> #[trigger] all@[k]@ == ls[k],
            out@.map_values(|p: (u64, String)| (p.0, p.1@)) == clocked(ls, i as int),
        decreases all@.len() - i,
    {
        assert(all@[i as int]@ == ls[i as int]);
        let clock: Option<u64> = match split_once_last(&all[i], "clock=") {
            Some((_, v)) => number_of(&trim(&v)),
            None => None,
        };
        match clock {
            Some(t) => {
                let ghost was = out@;
                let line = string_of(&all[i]);
                out.push((t, line));
                assert(out@.map_values(|p: (u64, String)| (p.0, p.1@)) =~= was.map_values(
                    |p: (u64, String)| (p.0, p.1@),
                ).push((t, line@)));
            },
            None => {},
        }
        i += 1;
    }
    out
}

/// A failure that was told reads back: the entry and its status.
#[verifier::rlimit(40)]
pub proof fn a_failure_reads_back(n: nat, status: Seq<char>)
    requires
        n <= u64::MAX,
    ensures
        failure_of("entry "@ + text::decimal(n) + ": "@ + status) == Some((n as u64, status)),
{
    text::digits_read_back(n, 10);
    reveal_strlit("entry ");
    reveal_strlit(": ");
    let d = text::decimal(n);
    let head = "entry "@;
    let rest = d + ": "@ + status;
    let whole = head + d + ": "@ + status;
    assert(whole =~= head + rest);
    assert(whole.skip(head.len() as int) =~= rest);
    assert(whole.take(head.len() as int) =~= head);
    assert('0' <= d[0] <= '9' || 'a' <= d[0] <= 'f');
    assert(!d.contains(": "@[0])) by {
        if d.contains(':') {
            let i = choose|i: int| 0 <= i < d.len() && d[i] == ':';
            assert('0' <= d[i] <= '9' || 'a' <= d[i] <= 'f');
        }
    }
    words::a_text_is_split_where_it_stands(d, ": "@, status);
}

/// The last status of an entry is that of its last life: the one with the
/// highest number of those that are listed with a status.
pub proof fn the_last_life_counts(e: EndingView, entry: u64, n: int, i: int)
    requires
        0 <= n <= e.entries.len(),
    ensures
        0 <= i < n && e.life(entry, i) is Some ==> e.last_of(entry, n) is Some && e.last_of(
            entry,
            n,
        ).unwrap().0 >= e.life(entry, i).unwrap().0,
        e.last_of(entry, n) is Some ==> exists|k: int|
            0 <= k < n && #[trigger] e.life(entry, k) == e.last_of(entry, n),
    decreases n,
{
    if n > 0 {
        the_last_life_counts(e, entry, n - 1, i);
        let before = e.last_of(entry, n - 1);
        if before is Some {
            let k = choose|k: int| 0 <= k < n - 1 && #[trigger] e.life(entry, k) == before;
            assert(e.life(entry, k) == before);
        }
        assert(e.life(entry, n - 1) == e.life(entry, n - 1));
    }
}

/// A life is told of by two lines: whose entry it was and how it ended.
pub proof fn a_life_is_told_by_two_lines(e: EndingView, entry: u64, i: int, number: nat)
    requires
        0 <= i < e.entries.len(),
        number <= u64::MAX,
        e.entries[i] == ("p"@ + text::decimal(number), text::decimal(entry as nat)),
    ensures
        e.life(entry, i) == (match fields::find(e.statuses, "p"@ + text::decimal(number)) {
            Some(status) => Some((number as u64, status)),
            None => None,
        }),
{
    text::digits_read_back(number, 10);
    text::digits_read_back(entry as nat, 10);
    let d = text::decimal(number);
    let e10 = text::decimal(entry as nat);
    assert('0' <= d[0] <= '9' || 'a' <= d[0] <= 'f');
    assert('0' <= e10[0] <= '9' || 'a' <= e10[0] <= 'f');
    let name = "p"@ + d;
    assert(name.skip("p"@.len() as int) =~= d);
    assert(name.take("p"@.len() as int) =~= "p"@);
}

/// A run fails like another where the entry that failed that one ended with
/// the same status last.
pub proof fn failing_alike_is_ending_alike(e: EndingView, reference: EndingView)
    ensures
        e.fails_like(reference) <==> reference.failure is Some && e.last_of(
            reference.failure.unwrap().0,
            e.entries.len() as int,
        ) is Some && e.last_of(
            reference.failure.unwrap().0,
            e.entries.len() as int,
        ).unwrap().1 == reference.failure.unwrap().1,
{
}

/// The failure of a report is what its last line of that name says.
pub proof fn the_last_failure_line_counts(
    e: EndingView,
    lines: Seq<Seq<char>>,
    n: int,
    i: int,
    value: Seq<char>,
)
    requires
        0 <= i < n <= lines.len(),
        lines[i] == "run.failure"@ + seq!['='] + value,
        forall|k: int|
            #![trigger lines[k]]
            i < k < n ==> (text::split_at_first(lines[k], '=') matches Some((key, _)) ==> key
                != "run.failure"@),
    ensures
        e.with_lines(lines, n).failure == failure_of(value),
    decreases n,
{
    if i < n - 1 {
        the_last_failure_line_counts(e, lines, n - 1, i, value);
        let before = e.with_lines(lines, n - 1);
        if let Some((key, v)) = text::split_at_first(lines[n - 1], '=') {
            assert(key != "run.failure"@);
            assert(before.with_field(key, v).failure == before.failure);
        }
    } else {
        reveal_strlit("run.failure");
        let key = "run.failure"@;
        assert(!key.contains('=')) by {
            assert forall|k: int| 0 <= k < key.len() implies key[k] != '=' by {
                assert(key.len() == 11);
                assert(k == 0 || k == 1 || k == 2 || k == 3 || k == 4 || k == 5 || k == 6 || k == 7
                    || k == 8 || k == 9 || k == 10);
            }
        }
        text::a_text_is_split_at_the_first(key, '=', value);
    }
}

} // verus!
