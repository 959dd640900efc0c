//! Run guests under one scheduler: what their reports and exits mean, who
//! is started again, and when the run is over. Spawning, watching and
//! killing the real processes is the caller's part.

use vstd::prelude::*;
use crate::coord;
use crate::coord::{CoordView, Coordinator, Death, Totals};
use crate::fields;
use crate::netstate::NetCounts;
use crate::replay;
use crate::shared::launcher::Counts;
use crate::shared::laws;
use crate::shared::{Faults, Handoff, MAX_PROCS, NO_PROC};
use crate::text;
use crate::text::{chars_of, lines, parse_unsigned, push_decimal, split_once, string_of, trim};
use crate::words;
use crate::words::push_padded;

verus! {

/// Tells the supervisor to set up the stubs' region and nothing else
pub const PASSIVE_VAR: &'static str = "REWRITE_PASSIVE";

/// The signal that ends a process at once
pub const SIGKILL: i32 = 9;

/// What a guest reports at its exit, by field
pub struct Report {
    pub fields: Vec<(String, String)>,
}

/// With the fields of the first `n` lines
pub open spec fn fields_of(lines: Seq<Seq<char>>, n: int) -> fields::Entries
    decreases n,
{
    if n <= 0 {
        Seq::empty()
    } else {
        let before = fields_of(lines, n - 1);
        match text::split_at_first(lines[n - 1], '=') {
            Some((k, v)) => fields::put(before, text::trimmed(k), text::trimmed(v)),
            None => before,
        }
    }
}

/// The fields of a report
pub open spec fn parsed(report: Seq<char>) -> fields::Entries {
    let ls = text::lines_of(report);
    fields_of(ls, ls.len() as int)
}

impl View for Report {
    type V = fields::Entries;

    open spec fn view(&self) -> fields::Entries {
        fields::pairs(self.fields@)
    }
}

impl Report {
    pub fn parse(text: &str) -> (r: Report)
        ensures
            r@ == parsed(text@),
    {
        let all = lines(text);
        let ghost ls = text::lines_of(text@);
        let mut out: Vec<(String, String)> = Vec::new();
        assert(fields::pairs(out@) =~= Seq::empty());
        let mut i: usize = 0;
        while i < all.len()
            invariant
                i <= all@.len() == ls.len(),
                forall|k: int| 0 <= k < all.len() ==> #[trigger] all@[k]@ == ls[k],
                fields::pairs(out@) == fields_of(ls, i as int),
            decreases all@.len() - i,
        {
            assert(all@[i as int]@ == ls[i as int]);
            match split_once(&all[i], '=') {
                Some((k, v)) => {
                    fields::set(&mut out, string_of(&trim(&k)), string_of(&trim(&v)));
                },
                None => {},
            }
            i += 1;
        }
        Report { fields: out }
    }

    pub fn get(&self, key: &str) -> (r: Option<&String>)
        ensures
            match r {
                Some(s) => fields::find(self@, key@) == Some(s@),
                None => fields::find(self@, key@) is None,
            },
    {
        fields::get(&self.fields, key)
    }

    pub fn get_u64(&self, key: &str) -> (r: Option<u64>)
        ensures
            r == number_in(self@, key@),
    {
        match self.get(key) {
            Some(v) => parse_unsigned(&chars_of(v.as_str()), 10, u64::MAX),
            None => None,
        }
    }
}

/// The number a field says
pub open spec fn number_in(e: fields::Entries, key: Seq<char>) -> Option<u64> {
    match fields::find(e, key) {
        Some(v) => replay::number(v),
        None => None,
    }
}

/// `libc::WIFEXITED`: the low seven bits of the status are clear.
#[verifier::external_body]
fn has_exited(status: i32) -> (r: bool)
    ensures
        r == (status & 0x7f == 0),
{
    libc::WIFEXITED(status)
}

/// `libc::WEXITSTATUS`: the second byte of the status.
#[verifier::external_body]
fn exit_status(status: i32) -> (r: i32)
    ensures
        r == (status >> 8) & 0xff,
{
    libc::WEXITSTATUS(status)
}

/// `libc::WIFSIGNALED`: the low seven bits of the status are neither all
/// clear nor all set.
#[verifier::external_body]
fn was_signaled(status: i32) -> (r: bool)
    ensures
        r == (status & 0x7f != 0 && status & 0x7f != 0x7f),
{
    libc::WIFSIGNALED(status)
}

/// `libc::WTERMSIG`: the low seven bits of the status.
#[verifier::external_body]
fn signal_of(status: i32) -> (r: i32)
    ensures
        r == status & 0x7f,
{
    libc::WTERMSIG(status)
}

/// The exit code a wait status holds
pub open spec fn code_in(status: i32) -> Option<i32> {
    if status & 0x7f == 0 {
        Some((status >> 8) & 0xff)
    } else {
        None
    }
}

/// The signal a wait status holds
pub open spec fn signal_in(status: i32) -> Option<i32> {
    if status & 0x7f != 0 && status & 0x7f != 0x7f {
        Some(status & 0x7f)
    } else {
        None
    }
}

/// How a process ended
pub struct Outcome {
    /// Raw wait status; use the helpers below
    pub status: i32,
    pub report: Report,
    /// The run's stop time ended it.
    pub stopped: bool,
    /// The original program, and the executable made from it
    pub program: Option<String>,
    pub image: Option<String>,
}

impl Outcome {
    pub fn exit_code(&self) -> (r: Option<i32>)
        ensures
            r == code_in(self.status),
    {
        if has_exited(self.status) {
            Some(exit_status(self.status))
        } else {
            None
        }
    }

    pub fn signal(&self) -> (r: Option<i32>)
        ensures
            r == signal_in(self.status),
    {
        if was_signaled(self.status) {
            Some(signal_of(self.status))
        } else {
            None
        }
    }
}

/// A status names an exit code or a signal, never both.
pub proof fn a_process_ends_one_way(status: i32)
    ensures
        !(code_in(status) is Some && signal_in(status) is Some),
        code_in(status) matches Some(c) ==> 0 <= c <= 255,
        signal_in(status) matches Some(s) ==> 1 <= s <= 126,
{
    assert(0 <= (status >> 8) & 0xff && (status >> 8) & 0xff <= 255) by (bit_vector);
    assert(0 <= status & 0x7f && status & 0x7f <= 127) by (bit_vector);
}

/// One guest of a run
pub struct Guest {
    /// The original program
    pub program: String,
    pub exe: String,
    /// `argv[0]` when it should differ from `exe` (a manifest's own token
    /// rather than the rewritten file's path)
    pub argv0: Option<String>,
    pub args: Vec<String>,
    /// Index of the virtual host the process lives on
    pub host: u32,
    /// `KEY=VALUE` pairs for this guest only
    pub env: Vec<(String, String)>,
    /// Redirect the guest's stdout to this file (created or truncated)
    pub stdout: Option<String>,
    pub stderr: Option<String>,
    /// Working directory: the guest's host directory in a manifest run
    pub cwd: Option<String>,
    /// Killed when every guest that is not a daemon has exited
    pub daemon: bool,
    /// Crashes to inject into it and whether it is started again
    pub faults: Faults,
}

/// A process of the run as the launcher sees it, indexed like the process
/// table
pub struct Watched {
    /// Which of the run's guests this is a life of; None for a guest's
    /// child
    pub spec_index: Option<usize>,
    pub pid: i32,
    /// Our own child (we reap it) rather than a guest's
    pub ours: bool,
    pub status: Option<i32>,
    pub report: String,
}

#[verifier::ext_equal]
pub struct WatchedView {
    pub spec_index: Option<usize>,
    pub pid: i32,
    pub ours: bool,
    pub status: Option<i32>,
    pub report: Seq<char>,
}

impl View for Watched {
    type V = WatchedView;

    open spec fn view(&self) -> WatchedView {
        WatchedView {
            spec_index: self.spec_index,
            pid: self.pid,
            ours: self.ours,
            status: self.status,
            report: self.report@,
        }
    }
}

impl WatchedView {
    pub open spec fn fresh(pid: i32, ours: bool) -> WatchedView {
        WatchedView { spec_index: None, pid, ours, status: None, report: Seq::empty() }
    }

    /// A place in the table that nothing was heard of
    pub open spec fn unheard() -> WatchedView {
        WatchedView { status: Some(0), ..WatchedView::fresh(0, false) }
    }

    pub open spec fn running(self) -> bool {
        self.status is None
    }
}

/// Those of the first `n` processes that still run: index, pid, and whether
/// they are ours to wait for
pub open spec fn running_of(procs: Seq<WatchedView>, n: int) -> Seq<(usize, i32, bool)>
    decreases n,
{
    if n <= 0 {
        Seq::empty()
    } else {
        let before = running_of(procs, n - 1);
        let p = procs[n - 1];
        if p.running() {
            before.push(((n - 1) as usize, p.pid, p.ours))
        } else {
            before
        }
    }
}

impl Watched {
    pub fn new(pid: i32, ours: bool) -> (r: Watched)
        ensures
            r@ == WatchedView::fresh(pid, ours),
    {
        let r = Watched { spec_index: None, pid, ours, status: None, report: String::new() };
        assert(r@.report =~= Seq::<char>::empty());
        r
    }
}

pub open spec fn seen(v: Seq<Watched>) -> Seq<WatchedView> {
    v.map_values(|t: Watched| t@)
}

/// With a process in its place, which may be ahead of what was heard of
pub open spec fn placed(procs: Seq<WatchedView>, index: int, t: WatchedView) -> Seq<WatchedView> {
    Seq::new(
        if procs.len() > index {
            procs.len()
        } else {
            (index + 1) as nat
        },
        |i: int|
            if i == index {
                t
            } else if i < procs.len() {
                procs[i]
            } else {
                WatchedView::unheard()
            },
    )
}

/// The run's processes, from the launcher's side
pub struct Supervision {
    /// Which of the run's guests are daemons
    pub daemons: Vec<bool>,
    pub procs: Vec<Watched>,
    /// Processes that ended and have not been dealt with
    pub gone: Vec<usize>,
    pub coord: Option<Coordinator>,
    /// The survivors were killed because every thread was blocked.
    pub deadlock: bool,
}

#[verifier::ext_equal]
pub struct SupervisionView {
    pub daemons: Seq<bool>,
    pub procs: Seq<WatchedView>,
    pub gone: Seq<usize>,
    pub coord: Option<CoordView>,
    pub deadlock: bool,
}

impl View for Supervision {
    type V = SupervisionView;

    open spec fn view(&self) -> SupervisionView {
        SupervisionView {
            daemons: self.daemons@,
            procs: seen(self.procs@),
            gone: self.gone@,
            coord: match self.coord {
                Some(c) => Some(c@),
                None => None,
            },
            deadlock: self.deadlock,
        }
    }
}

/// What is to be done after a death
#[derive(Debug, Clone, Copy, PartialEq, Eq, Structural)]
pub enum Next {
    /// No death is left to deal with.
    Wait,
    /// Look for another.
    Again,
    /// Start guest `spec_index` again, as process `index`.
    Spawn { spec_index: usize, index: usize },
    /// The run is over: kill what is left.
    End,
}

/// What a death asks for
pub struct Step {
    pub next: Next,
    /// Real pids to kill
    pub kills: Vec<i32>,
    /// The thread that has the baton now
    pub wake: Option<usize>,
}

pub struct StepView {
    pub next: Next,
    pub kills: Seq<i32>,
    pub wake: Option<usize>,
}

impl View for Step {
    type V = StepView;

    open spec fn view(&self) -> StepView {
        StepView { next: self.next, kills: self.kills@, wake: self.wake }
    }
}

impl SupervisionView {
    /// A guest that is not a daemon has work to do.
    pub open spec fn work_left(self) -> bool {
        exists|i: int|
            0 <= i < self.procs.len() && (#[trigger] self.procs[i]).running()
                && (self.procs[i].spec_index matches Some(g) && !self.daemons[g as int])
    }

    /// Only daemons (and what they spawned) are left: the run is over.
    pub open spec fn only_daemons_left(self) -> bool {
        !self.work_left() && self.daemons.contains(true)
    }

    pub open spec fn any_running(self) -> bool {
        exists|i: int| 0 <= i < self.procs.len() && (#[trigger] self.procs[i]).running()
    }

    /// Every index is of something there is.
    pub open spec fn wf(self) -> bool {
        &&& forall|i: int|
            0 <= i < self.procs.len() ==> ((#[trigger] self.procs[i]).spec_index matches Some(g)
                ==> g < self.daemons.len())
        &&& forall|i: int| 0 <= i < self.gone.len() ==> (#[trigger] self.gone[i]) < self.procs.len()
        &&& self.procs.len() <= MAX_PROCS
        &&& self.coord matches Some(c) ==> self.procs.len() <= c.state.procs.len() <= MAX_PROCS
    }

    /// What is left is dead.
    pub open spec fn ended(self) -> SupervisionView {
        SupervisionView {
            procs: self.procs.map_values(
                |t: WatchedView|
                    if t.running() {
                        WatchedView { status: Some(SIGKILL), ..t }
                    } else {
                        t
                    },
            ),
            ..self
        }
    }

    /// The guest to start again after the death of `index`
    pub open spec fn next_life(self, index: int) -> Option<(usize, usize)> {
        match (self.coord, self.procs[index].spec_index) {
            (Some(c), Some(g)) => {
                let new = c.state.procs[index].replaced_by;
                if new == NO_PROC || (new < self.procs.len() && self.procs[new as int].spec_index
                    is Some) {
                    None
                } else {
                    Some((g, new as usize))
                }
            },
            _ => None,
        }
    }

    /// The last of those that are gone, dealt with
    pub open spec fn settled(self) -> (SupervisionView, StepView) {
        if self.gone.len() == 0 {
            (self, StepView { next: Next::Wait, kills: Seq::empty(), wake: None })
        } else {
            let index = self.gone.last() as int;
            let status = match self.procs[index].status {
                Some(s) => s,
                None => 0,
            };
            let s = SupervisionView { gone: self.gone.drop_last(), ..self };
            match self.coord {
                None => if s.only_daemons_left() {
                    (s, StepView { next: Next::End, kills: Seq::empty(), wake: None })
                } else {
                    (s, StepView { next: Next::Again, kills: Seq::empty(), wake: None })
                },
                Some(c) => if !c.restarts(index, status) && s.only_daemons_left() {
                    (
                        SupervisionView { coord: Some(c.refused(index, status)), ..s },
                        StepView { next: Next::End, kills: Seq::empty(), wake: None },
                    )
                } else {
                    let asked = c.refused(index, status);
                    let (after, handoff) = asked.died(index, status);
                    let kills = asked.death_noted(index).state.died(index, status).0.kills;
                    let wake = coord::woken(handoff);
                    let t = SupervisionView { coord: Some(after), ..s };
                    if handoff == Some(Handoff::Idle) && after.alive() && !c.stopped {
                        (
                            SupervisionView { deadlock: true, ..t },
                            StepView { next: Next::End, kills, wake },
                        )
                    } else {
                        (
                            t,
                            StepView {
                                next: match t.next_life(index) {
                                    Some((spec_index, index)) => Next::Spawn { spec_index, index },
                                    None => Next::Again,
                                },
                                kills,
                                wake,
                            },
                        )
                    }
                },
            }
        }
    }

    /// A life of guest `spec_index` was started as process `index`.
    pub open spec fn started(
        self,
        index: int,
        spec_index: usize,
        pid: i32,
        lost: bool,
        status: Option<i32>,
    ) -> SupervisionView {
        let t = WatchedView {
            spec_index: Some(spec_index),
            status: if lost {
                status
            } else {
                None
            },
            ..WatchedView::fresh(pid, true)
        };
        SupervisionView {
            procs: placed(self.procs, index, t),
            gone: if lost {
                self.gone.push(index as usize)
            } else {
                self.gone
            },
            ..self
        }
    }

    /// A guest has started a process of its own.
    pub open spec fn child_started(self, index: int, pid: i32, lost: bool) -> SupervisionView {
        let t = WatchedView {
            status: if lost {
                Some(0)
            } else {
                None
            },
            ..WatchedView::fresh(pid, false)
        };
        SupervisionView {
            procs: placed(self.procs, index, t),
            gone: if lost {
                self.gone.push(index as usize)
            } else {
                self.gone
            },
            ..self
        }
    }

    /// A process was seen to end with `status`; `reaped` is what waiting
    /// for it gave.
    pub open spec fn exited(
        self,
        index: int,
        status: i32,
        reaped: Option<i32>,
    ) -> SupervisionView {
        let t = self.procs[index];
        let known = if !t.ours {
            Some(status)
        } else if t.status is Some {
            t.status
        } else if reaped is Some {
            reaped
        } else {
            Some(status)
        };
        SupervisionView {
            procs: self.procs.update(index, WatchedView { status: known, ..t }),
            gone: self.gone.push(index as usize),
            ..self
        }
    }
}

impl Supervision {
    pub closed spec fn wf(self) -> bool {
        &&& self@.wf()
        &&& self.coord matches Some(c) ==> c.wf()
    }

    pub proof fn lemma_wf(self)
        requires
            self.wf(),
        ensures
            self@.wf(),
    {
    }

    /// A run with nothing started
    pub fn new(daemons: Vec<bool>, coord: Option<Coordinator>) -> (r: Supervision)
        requires
            coord matches Some(c) ==> c.wf(),
        ensures
            r.wf(),
            r@ == (SupervisionView {
                daemons: daemons@,
                procs: Seq::empty(),
                gone: Seq::empty(),
                coord: match coord {
                    Some(c) => Some(c@),
                    None => None,
                },
                deadlock: false,
            }),
    {
        proof {
            if coord is Some {
                coord->0.lemma_wf();
            }
        }
        let r = Supervision {
            daemons,
            procs: Vec::new(),
            gone: Vec::new(),
            coord,
            deadlock: false,
        };
        assert(r@.procs =~= Seq::empty());
        r
    }

    /// Only daemons (and what they spawned) are left: the run is over.
    /// Whoever just exited held the baton, so everything else is parked and
    /// dies where it stands, before the baton could be handed to it.
    pub fn only_daemons_left(&self) -> (r: bool)
        requires
            self.wf(),
        ensures
            r == self@.only_daemons_left(),
    {
        let mut i: usize = 0;
        while i < self.procs.len()
            invariant
                self.wf(),
                i <= self.procs@.len(),
                forall|k: int|
                    0 <= k < i && (#[trigger] self@.procs[k]).running() ==> (
                    self@.procs[k].spec_index matches Some(g) ==> self@.daemons[g as int]),
            decreases self.procs@.len() - i,
        {
            let p = &self.procs[i];
            assert(self@.procs[i as int] == p@);
            if p.status.is_none() {
                match p.spec_index {
                    Some(g) => {
                        if !self.daemons[g] {
                            assert(self@.procs[i as int].running());
                            return false;
                        }
                    },
                    None => {},
                }
            }
            i += 1;
        }
        let mut j: usize = 0;
        while j < self.daemons.len()
            invariant
                !self@.work_left(),
                j <= self.daemons@.len(),
                forall|k: int| 0 <= k < j ==> !self.daemons@[k],
            decreases self.daemons@.len() - j,
        {
            if self.daemons[j] {
                assert(self@.daemons[j as int]);
                assert(self@.daemons.contains(true));
                return true;
            }
            j += 1;
        }
        false
    }

    /// Whether anything still runs
    pub fn any_running(&self) -> (r: bool)
        ensures
            r == self@.any_running(),
    {
        let mut i: usize = 0;
        while i < self.procs.len()
            invariant
                i <= self.procs@.len(),
                forall|k: int| 0 <= k < i ==> !(#[trigger] self@.procs[k]).running(),
            decreases self.procs@.len() - i,
        {
            assert(self@.procs[i as int] == self.procs@[i as int]@);
            if self.procs[i].status.is_none() {
                return true;
            }
            i += 1;
        }
        false
    }

    fn track(&mut self, index: usize, watched: Watched)
        requires
            index < MAX_PROCS,
        ensures
            final(self)@ == (SupervisionView {
                procs: placed(old(self)@.procs, index as int, watched@),
                ..old(self)@
            }),
            final(self).coord == old(self).coord,
    {
        let ghost was = self@.procs;
        while self.procs.len() <= index
            invariant
                index < MAX_PROCS,
                was == old(self)@.procs,
                self.daemons == old(self).daemons,
                self.gone == old(self).gone,
                self.coord == old(self).coord,
                self.deadlock == old(self).deadlock,
                self.procs@.len() >= was.len(),
                self.procs@.len() > was.len() ==> self.procs@.len() <= index + 1,
                forall|k: int|
                    0 <= k < self.procs@.len() ==> #[trigger] self@.procs[k] == (if k < was.len() {
                        was[k]
                    } else {
                        WatchedView::unheard()
                    }),
            decreases index + 1 - self.procs@.len(),
        {
            // A process whose spawn failed in the guest, or that we hear
            // of later
            let ghost before = self@.procs;
            let mut t = Watched::new(0, false);
            t.status = Some(0);
            self.procs.push(t);
            assert(self@.procs =~= before.push(WatchedView::unheard()));
        }
        let ghost before = self@.procs;
        self.procs.set(index, watched);
        assert(self@.procs =~= before.update(index as int, watched@));
        assert(self@.procs =~= placed(was, index as int, watched@));
    }

    /// Process `index` was started as a life of guest `spec_index`. Where
    /// it was `lost` before it could be watched, `status` is what waiting
    /// for it gave.
    pub fn started(
        &mut self,
        index: usize,
        spec_index: usize,
        pid: i32,
        lost: bool,
        status: Option<i32>,
    )
        requires
            old(self).wf(),
            spec_index < old(self)@.daemons.len(),
            index < MAX_PROCS,
            old(self)@.coord matches Some(c) ==> index < c.state.procs.len(),
        ensures
            final(self).wf(),
            final(self)@ == old(self)@.started(index as int, spec_index, pid, lost, status),
    {
        let mut t = Watched::new(pid, true);
        t.spec_index = Some(spec_index);
        if lost {
            t.status = status;
        }
        self.track(index, t);
        if lost {
            self.gone.push(index);
        }
        proof {
            let s = old(self)@.started(index as int, spec_index, pid, lost, status);
            assert(self@ =~= s);
            old(self).lemma_placed(s);
        }
    }

    /// A guest has started a process of its own, which is process `index`.
    pub fn child_started(&mut self, index: usize, pid: i32, lost: bool)
        requires
            old(self).wf(),
            index < MAX_PROCS,
            old(self)@.coord matches Some(c) ==> index < c.state.procs.len(),
        ensures
            final(self).wf(),
            final(self)@ == old(self)@.child_started(index as int, pid, lost),
    {
        let mut t = Watched::new(pid, false);
        if lost {
            t.status = Some(0);
        }
        self.track(index, t);
        if lost {
            self.gone.push(index);
        }
        proof {
            let s = old(self)@.child_started(index as int, pid, lost);
            assert(self@ =~= s);
            old(self).lemma_placed(s);
        }
    }

    /// The report of process `index`, if there is one
    pub fn take_report(&mut self, index: usize, text: String)
        requires
            old(self).wf(),
        ensures
            final(self).wf(),
            final(self)@ == (if index < old(self)@.procs.len() {
                SupervisionView {
                    procs: old(self)@.procs.update(
                        index as int,
                        WatchedView { report: text@, ..old(self)@.procs[index as int] },
                    ),
                    ..old(self)@
                }
            } else {
                old(self)@
            }),
    {
        if index < self.procs.len() {
            let ghost was = self@;
            let t = Watched {
                spec_index: self.procs[index].spec_index,
                pid: self.procs[index].pid,
                ours: self.procs[index].ours,
                status: self.procs[index].status,
                report: text,
            };
            self.procs.set(index, t);
            assert(self@.procs =~= was.procs.update(index as int, t@));
        }
    }

    fn set_status(&mut self, index: usize, status: Option<i32>)
        requires
            index < old(self)@.procs.len(),
        ensures
            final(self)@ == (SupervisionView {
                procs: old(self)@.procs.update(
                    index as int,
                    WatchedView { status, ..old(self)@.procs[index as int] },
                ),
                ..old(self)@
            }),
            final(self).coord == old(self).coord,
    {
        let ghost was = self@;
        let t = Watched {
            spec_index: self.procs[index].spec_index,
            pid: self.procs[index].pid,
            ours: self.procs[index].ours,
            status,
            report: self.procs[index].report.clone(),
        };
        self.procs.set(index, t);
        assert(self@.procs =~= was.procs.update(index as int, t@));
    }

    /// Process `index` was seen to end with `status`; `reaped` is what
    /// waiting for it gave. Waiting fails if `SIGCHLD` is ignored in our
    /// own environment; what was seen carries the status too.
    pub fn exited(&mut self, index: usize, status: i32, reaped: Option<i32>)
        requires
            old(self).wf(),
            index < old(self)@.procs.len(),
        ensures
            final(self).wf(),
            final(self)@ == old(self)@.exited(index as int, status, reaped),
    {
        let known: Option<i32> = if !self.procs[index].ours {
            Some(status)
        } else if self.procs[index].status.is_some() {
            self.procs[index].status
        } else if reaped.is_some() {
            reaped
        } else {
            Some(status)
        };
        self.set_status(index, known);
        self.gone.push(index);
        assert(self@ =~= old(self)@.exited(index as int, status, reaped));
    }

    /// The processes that still run, in order: index, pid, and whether they are
    /// ours to wait for
    pub fn survivors(&self) -> (r: Vec<(usize, i32, bool)>)
        ensures
            r@ == running_of(self@.procs, self@.procs.len() as int),
    {
        let mut out: Vec<(usize, i32, bool)> = Vec::new();
        let mut i: usize = 0;
        while i < self.procs.len()
            invariant
                i <= self.procs@.len(),
                self.procs@.len() == self@.procs.len(),
                out@ == running_of(self@.procs, i as int),
            decreases self.procs@.len() - i,
        {
            let p = &self.procs[i];
            assert(self@.procs[i as int] == p@);
            if p.status.is_none() {
                out.push((i, p.pid, p.ours));
            }
            i += 1;
        }
        out
    }

    /// What waiting for a killed process gave
    pub fn reaped(&mut self, index: usize, status: i32)
        requires
            old(self).wf(),
            index < old(self)@.procs.len(),
        ensures
            final(self).wf(),
            final(self)@ == (SupervisionView {
                procs: old(self)@.procs.update(
                    index as int,
                    WatchedView { status: Some(status), ..old(self)@.procs[index as int] },
                ),
                ..old(self)@
            }),
    {
        self.set_status(index, Some(status));
    }

    /// The run is over, and what was left has been killed.
    pub fn end_run(&mut self)
        requires
            old(self).wf(),
        ensures
            final(self).wf(),
            final(self)@ == old(self)@.ended(),
            !final(self)@.any_running(),
    {
        let ghost was = self@;
        let n: usize = self.procs.len();
        let mut i: usize = 0;
        while i < n
            invariant
                self.wf(),
                i <= n == self.procs@.len(),
                was == old(self)@,
                n == was.procs.len(),
                self@ == (SupervisionView { procs: self@.procs, ..was }),
                forall|k: int|
                    0 <= k < n ==> #[trigger] self@.procs[k] == (if k < i {
                        was.ended().procs[k]
                    } else {
                        was.procs[k]
                    }),
            decreases n - i,
        {
            let ghost before = self@;
            assert(before.procs[i as int] == self.procs@[i as int]@);
            if self.procs[i].status.is_none() {
                self.set_status(i, Some(SIGKILL));
            }
            i += 1;
        }
        assert(self@ =~= was.ended());
    }

    /// Deal with the last process that is gone.
    pub fn settle(&mut self) -> (r: Step)
        requires
            old(self).wf(),
        ensures
            final(self).wf(),
            (final(self)@, r@) == old(self)@.settled(),
    {
        let ghost was = self@;
        let index: usize = match self.gone.pop() {
            None => {
                assert(self@ =~= was);
                return Step { next: Next::Wait, kills: Vec::new(), wake: None };
            },
            Some(i) => i,
        };
        assert(was.gone[was.gone.len() - 1] == index);
        let ghost s = SupervisionView { gone: was.gone.drop_last(), ..was };
        assert(self@ =~= s);
        let status: i32 = match self.procs[index].status {
            Some(s) => s,
            None => 0,
        };
        assert(was.procs[index as int] == self.procs@[index as int]@);
        let daemons_only: bool = self.only_daemons_left();
        let spec_index: Option<usize> = self.procs[index].spec_index;
        let mut coord: Option<Coordinator> = None;
        std::mem::swap(&mut coord, &mut self.coord);
        let mut c = match coord {
            None => {
                assert(self@ =~= s);
                let next: Next = if daemons_only {
                    Next::End
                } else {
                    Next::Again
                };
                return Step { next, kills: Vec::new(), wake: None };
            },
            Some(c) => c,
        };
        let ghost before = c@;
        let restarting: bool = c.will_restart(index as u32, status);
        if !restarting && daemons_only {
            proof {
                c.lemma_wf();
            }
            self.coord = Some(c);
            assert(self@ =~= was.settled().0);
            return Step { next: Next::End, kills: Vec::new(), wake: None };
        }
        proof {
            let asked = before.refused(index as int, status);
            laws::the_dead_keep_their_places(
                asked.death_noted(index as int).state,
                index as int,
                status,
            );
        }
        let death = c.process_died(index as u32, status);
        let again: Option<u32> = c.replacement_of(index as u32);
        proof {
            c.lemma_wf();
        }
        self.coord = Some(c);
        if death.deadlock {
            self.deadlock = true;
            assert(self@ =~= was.settled().0);
            return Step { next: Next::End, kills: death.kills, wake: death.wake };
        }
        assert(self@ =~= was.settled().0);
        let next: Next = match (again, spec_index) {
            (Some(new), Some(g)) => {
                let new: usize = new as usize;
                let known: bool = new < self.procs.len() && self.procs[new].spec_index.is_some();
                assert(new < self.procs.len() ==> self@.procs[new as int]
                    == self.procs@[new as int]@);
                if known {
                    Next::Again
                } else {
                    Next::Spawn { spec_index: g, index: new }
                }
            },
            _ => Next::Again,
        };
        Step { next, kills: death.kills, wake: death.wake }
    }

    proof fn lemma_placed(self, s: SupervisionView)
        requires
            self.wf(),
            s.daemons == self@.daemons,
            s.coord == self@.coord,
            exists|index: int, t: WatchedView|
                #![trigger placed(self@.procs, index, t)]
                0 <= index < MAX_PROCS && s.procs == placed(self@.procs, index, t) && (
                s.gone == self@.gone || s.gone == self@.gone.push(index as usize)) && (
                t.spec_index matches Some(g) ==> g < s.daemons.len()) && (
                self@.coord matches Some(c) ==> index < c.state.procs.len()),
        ensures
            s.wf(),
    {
    }
}

/// What an outcome says
pub struct OutcomeView {
    pub status: i32,
    pub report: fields::Entries,
    pub stopped: bool,
    pub program: Option<Seq<char>>,
    pub image: Option<Seq<char>>,
}

pub open spec fn text_in(s: Option<String>) -> Option<Seq<char>> {
    match s {
        Some(s) => Some(s@),
        None => None,
    }
}

impl View for Outcome {
    type V = OutcomeView;

    open spec fn view(&self) -> OutcomeView {
        OutcomeView {
            status: self.status,
            report: self.report@,
            stopped: self.stopped,
            program: text_in(self.program),
            image: text_in(self.image),
        }
    }
}

pub struct RunOutcome {
    /// Every process of the run in registration order: the run's guests
    /// first, then the ones guests spawned
    pub guests: Vec<Outcome>,
    /// How many of `guests` the launcher started itself
    pub initial: usize,
    /// Which of the initial guests were daemons, killed at the end
    pub daemons: Vec<bool>,
    /// For each of `guests`, the index in the run's guests it was started
    /// from; a restarted process shares it with its earlier lives
    pub specs: Vec<Option<usize>>,
    pub totals: Totals,
    /// The survivors were killed because every thread was blocked
    pub deadlock: bool,
    /// The run was ended at its limit of real time.
    pub wall_limited: bool,
}

/// Run-wide values as of the end of the run, not of a guest's exit
pub open spec fn with_totals(report: fields::Entries, c: Counts) -> fields::Entries {
    fields::put(
        fields::put(
            fields::put(report, "switches"@, text::decimal(c.switches as nat)),
            "expiries"@,
            text::decimal(c.expiries as nat),
        ),
        "schedule_hash"@,
        words::padded(c.schedule_hash as nat, 16, 16),
    )
}

impl Counts {
    pub open spec fn none() -> Counts {
        Counts {
            switches: 0,
            expiries: 0,
            schedule_hash: 0,
            threads: 0,
            crashes_injected: 0,
            restarts: 0,
            clock_ns: 0,
        }
    }
}

impl NetCounts {
    pub open spec fn none() -> NetCounts {
        NetCounts { connections: 0, datagrams: 0, dropped: 0, bytes: 0, passthrough: 0 }
    }
}

impl Totals {
    /// The totals of a run without a scheduler
    pub fn none() -> (r: Totals)
        ensures
            r.counts == Counts::none(),
            r.net == NetCounts::none(),
            r.restarts_refused == 0,
            r.died_at@ == Seq::<u64>::empty(),
            r.stopped_at == 0,
            r.stopped@ == Seq::<bool>::empty(),
    {
        Totals {
            counts: Counts {
                switches: 0,
                expiries: 0,
                schedule_hash: 0,
                threads: 0,
                crashes_injected: 0,
                restarts: 0,
                clock_ns: 0,
            },
            net: NetCounts { connections: 0, datagrams: 0, dropped: 0, bytes: 0, passthrough: 0 },
            restarts_refused: 0,
            died_at: Vec::new(),
            stopped_at: 0,
            stopped: Vec::new(),
        }
    }
}

impl WatchedView {
    /// What came of a process
    pub open spec fn outcome(
        self,
        scheduled: Option<Counts>,
        stopped: bool,
        guests: Seq<Guest>,
    ) -> OutcomeView {
        let report = parsed(self.report);
        OutcomeView {
            status: match self.status {
                Some(s) => s,
                None => 0,
            },
            report: match scheduled {
                Some(c) => if report.len() > 0 {
                    with_totals(report, c)
                } else {
                    report
                },
                None => report,
            },
            stopped,
            program: match self.spec_index {
                Some(g) => Some(guests[g as int].program@),
                None => None,
            },
            image: match self.spec_index {
                Some(g) => Some(guests[g as int].exe@),
                None => None,
            },
        }
    }
}

impl Watched {
    fn outcome(&self, scheduled: Option<Counts>, stopped: bool, guests: &Vec<Guest>) -> (r: Outcome)
        requires
            self.spec_index matches Some(g) ==> g < guests@.len(),
        ensures
            r@ == self@.outcome(scheduled, stopped, guests@),
    {
        let mut report = Report::parse(self.report.as_str());
        match scheduled {
            Some(c) => {
                assert(report@.len() == report.fields@.len());
                if report.fields.len() > 0 {
                    let mut n = String::new();
                    push_decimal(&mut n, c.switches);
                    assert(n@ =~= text::decimal(c.switches as nat));
                    fields::set(&mut report.fields, "switches".to_owned(), n);
                    let mut n = String::new();
                    push_decimal(&mut n, c.expiries);
                    assert(n@ =~= text::decimal(c.expiries as nat));
                    fields::set(&mut report.fields, "expiries".to_owned(), n);
                    let mut n = String::new();
                    push_padded(&mut n, c.schedule_hash, 16, 16);
                    assert(n@ =~= words::padded(c.schedule_hash as nat, 16, 16));
                    fields::set(&mut report.fields, "schedule_hash".to_owned(), n);
                }
            },
            None => {},
        }
        let status: i32 = match self.status {
            Some(s) => s,
            None => 0,
        };
        let (program, image): (Option<String>, Option<String>) = match self.spec_index {
            Some(g) => (Some(guests[g].program.clone()), Some(guests[g].exe.clone())),
            None => (None, None),
        };
        Outcome { status, report, stopped, program, image }
    }
}

pub open spec fn outcomes(v: Seq<Outcome>) -> Seq<OutcomeView> {
    v.map_values(|o: Outcome| o@)
}

impl Supervision {
    /// What came of the run
    pub fn finish(&self, guests: &Vec<Guest>, wall_limited: bool) -> (r: RunOutcome)
        requires
            self.wf(),
            self@.daemons.len() == guests@.len(),
        ensures
            r.guests@.len() == self@.procs.len(),
            forall|i: int|
                0 <= i < self@.procs.len() ==> #[trigger] outcomes(r.guests@)[i]
                    == self@.procs[i].outcome(
                    match self@.coord {
                        Some(c) => Some(c.state.counts()),
                        None => None,
                    },
                    self@.coord matches Some(c) && i < c.cut_short.len() && c.cut_short[i],
                    guests@,
                ),
            r.initial == guests@.len(),
            r.daemons@ == self@.daemons,
            r.specs@ == Seq::new(self@.procs.len(), |i: int| self@.procs[i].spec_index),
            match self@.coord {
                Some(c) => {
                    &&& r.totals.counts == c.state.counts()
                    &&& r.totals.net == c.state.net.counts()
                    &&& r.totals.restarts_refused == c.restarts_refused
                    &&& r.totals.died_at@ == coord::filled(c.died_at, c.state.procs.len())
                    &&& r.totals.stopped_at == (if c.stopped {
                        c.stop_at_ns
                    } else {
                        0
                    })
                    &&& r.totals.stopped@ == coord::marked(c.cut_short, c.state.procs.len())
                },
                None => {
                    &&& r.totals.counts == Counts::none()
                    &&& r.totals.net == NetCounts::none()
                    &&& r.totals.restarts_refused == 0
                    &&& r.totals.died_at@ == Seq::<u64>::empty()
                    &&& r.totals.stopped_at == 0
                    &&& r.totals.stopped@ == Seq::<bool>::empty()
                },
            },
            r.deadlock == self.deadlock,
            r.wall_limited == wall_limited,
    {
        let (totals, scheduled): (Totals, Option<Counts>) = match &self.coord {
            Some(c) => {
                let t = c.totals();
                let counts: Counts = t.counts;
                (t, Some(counts))
            },
            None => (Totals::none(), None),
        };
        let ghost counted = match self@.coord {
            Some(c) => Some(c.state.counts()),
            None => None,
        };
        assert(scheduled == counted);
        let mut out: Vec<Outcome> = Vec::new();
        let mut specs: Vec<Option<usize>> = Vec::new();
        let mut i: usize = 0;
        while i < self.procs.len()
            invariant
                self.wf(),
                self@.daemons.len() == guests@.len(),
                i <= self.procs@.len(),
                scheduled == counted,
                self@.coord is None ==> totals.stopped@.len() == 0,
                self@.coord matches Some(c) ==> totals.stopped@ == coord::marked(
                    c.cut_short,
                    c.state.procs.len(),
                ),
                out@.len() == i,
                specs@ == Seq::new(i as nat, |k: int| self@.procs[k].spec_index),
                forall|k: int|
                    0 <= k < i ==> (#[trigger] out@[k])@ == self@.procs[k].outcome(
                        counted,
                        self@.coord matches Some(c) && k < c.cut_short.len() && c.cut_short[k],
                        guests@,
                    ),
            decreases self.procs@.len() - i,
        {
            let p = &self.procs[i];
            assert(self@.procs[i as int] == p@);
            let stopped: bool = i < totals.stopped.len() && totals.stopped[i];
            out.push(p.outcome(scheduled, stopped, guests));
            specs.push(p.spec_index);
            i += 1;
            assert(specs@ =~= Seq::new(i as nat, |k: int| self@.procs[k].spec_index));
        }
        let mut daemons: Vec<bool> = Vec::new();
        let mut j: usize = 0;
        while j < self.daemons.len()
            invariant
                j <= self.daemons@.len(),
                daemons@ == self.daemons@.take(j as int),
            decreases self.daemons@.len() - j,
        {
            daemons.push(self.daemons[j]);
            j += 1;
        }
        assert(self.daemons@.take(j as int) =~= self.daemons@);
        RunOutcome {
            guests: out,
            initial: guests.len(),
            daemons,
            specs,
            totals,
            deadlock: self.deadlock,
            wall_limited,
        }
    }
}

/// The survivors are those without a status, each with its number, pid and
/// whether it is the launcher's own child.
pub proof fn survivors_are_those_that_run(procs: Seq<WatchedView>, i: int)
    requires
        0 <= i < procs.len() <= usize::MAX,
    ensures
        running_of(procs, procs.len() as int).contains(
            (i as usize, procs[i].pid, procs[i].ours),
        ) <==> procs[i].status is None,
{
    lemma_running_of(procs, procs.len() as int, i);
}

proof fn lemma_running_of(procs: Seq<WatchedView>, n: int, i: int)
    requires
        0 <= i < procs.len() <= usize::MAX,
        0 <= n <= procs.len(),
    ensures
        running_of(procs, n).contains((i as usize, procs[i].pid, procs[i].ours)) <==> i < n
            && procs[i].status is None,
    decreases n,
{
    if n > 0 {
        lemma_running_of(procs, n - 1, i);
        let before = running_of(procs, n - 1);
        let all = running_of(procs, n);
        let x = (i as usize, procs[i].pid, procs[i].ours);
        if before.contains(x) {
            let k = choose|k: int| 0 <= k < before.len() && before[k] == x;
            assert(all[k] == x);
        }
        if procs[n - 1].running() {
            assert(all[before.len() as int] == ((n - 1) as usize, procs[n - 1].pid, procs[n
                - 1].ours));
        }
        if all.contains(x) {
            let k = choose|k: int| 0 <= k < all.len() && all[k] == x;
            if k < before.len() {
                assert(before[k] == x);
            }
        }
    }
}

/// A run without the supervisor is over when a death leaves only daemons: no
/// process runs that the run started and is no daemon, and some entry is one.
pub proof fn a_run_ends_with_its_last_worker(s: SupervisionView)
    requires
        s.wf(),
        s.coord is None,
        s.gone.len() > 0,
    ensures
        ({
            let (after, step) = s.settled();
            let works = exists|i: int|
                0 <= i < s.procs.len() && (#[trigger] s.procs[i]).status is None
                    && s.procs[i].spec_index is Some
                    && !s.daemons[s.procs[i].spec_index.unwrap() as int];
            &&& step.next == Next::End <==> !works && exists|g: int|
                0 <= g < s.daemons.len() && #[trigger] s.daemons[g]
            &&& step.next == Next::End || step.next == Next::Again
            &&& after.gone == s.gone.drop_last()
            &&& after.procs == s.procs
        }),
{
    if s.daemons.contains(true) {
        let g = choose|g: int| 0 <= g < s.daemons.len() && s.daemons[g] == true;
        assert(s.daemons[g]);
    }
    if exists|g: int| 0 <= g < s.daemons.len() && #[trigger] s.daemons[g] {
        let g = choose|g: int| 0 <= g < s.daemons.len() && #[trigger] s.daemons[g];
        assert(s.daemons[g] == true);
    }
    let t = SupervisionView { gone: s.gone.drop_last(), ..s };
    if s.work_left() {
        let i = choose|i: int|
            0 <= i < s.procs.len() && (#[trigger] s.procs[i]).running()
                && (s.procs[i].spec_index matches Some(g) && !s.daemons[g as int]);
        assert(t.procs[i].running());
        assert(s.procs[i].status is None);
    }
    assert(t.work_left() == s.work_left());
}

/// Ending a run gives whoever still ran the status of a kill, and nobody else
/// another one.
pub proof fn the_end_kills_who_still_runs(s: SupervisionView, i: int)
    requires
        0 <= i < s.procs.len(),
    ensures
        s.procs[i].status is None ==> s.ended().procs[i].status == Some(9i32),
        s.procs[i].status is Some ==> s.ended().procs[i] == s.procs[i],
{
}

/// A process that starts is watched under its number, as the life of its entry,
/// and one that was lost at once is gone; nobody else is touched.
pub proof fn a_started_process_is_watched(
    s: SupervisionView,
    index: int,
    spec_index: usize,
    pid: i32,
    lost: bool,
    status: Option<i32>,
    i: int,
)
    requires
        0 <= index < MAX_PROCS,
        0 <= i,
    ensures
        ({
            let after = s.started(index, spec_index, pid, lost, status);
            let t = after.procs[index];
            &&& index < after.procs.len()
            &&& t.spec_index == Some(spec_index)
            &&& t.pid == pid
            &&& t.ours
            &&& !lost ==> t.status is None && after.gone == s.gone
            &&& lost ==> t.status == status && after.gone == s.gone.push(index as usize)
            &&& i < s.procs.len() && i != index ==> after.procs[i] == s.procs[i]
            &&& s.procs.len() <= i < index ==> after.procs[i].status is Some
        }),
{
}

/// A process that exits is gone, with a status: of the launcher's own child the
/// one that was reaped, or known before; of another the one that was told.
pub proof fn an_exit_is_noted(s: SupervisionView, index: int, status: i32, reaped: Option<i32>)
    requires
        0 <= index < s.procs.len() <= MAX_PROCS,
    ensures
        ({
            let after = s.exited(index, status, reaped);
            let was = s.procs[index];
            let t = after.procs[index];
            &&& t.status is Some
            &&& !was.ours ==> t.status == Some(status)
            &&& was.ours && was.status is None && reaped is Some ==> t.status == reaped
            &&& was.ours && was.status is None && reaped is None ==> t.status == Some(status)
            &&& was.ours && was.status is Some ==> t.status == was.status
            &&& after.gone.len() == s.gone.len() + 1
            &&& after.gone.last() == index
            &&& t.pid == was.pid
            &&& t.spec_index == was.spec_index
        }),
{
}

/// A field of a report has the value that its last line gives it.
pub proof fn a_report_field_is_found(
    lines: Seq<Seq<char>>,
    n: int,
    i: int,
    key: Seq<char>,
    value: Seq<char>,
)
    requires
        0 <= i < n <= lines.len(),
        lines[i] == key + seq!['='] + value,
        !key.contains('='),
        text::trimmed(key) == key,
        text::trimmed(value) == value,
        forall|k: int|
            #![trigger lines[k]]
            i < k < n ==> (text::split_at_first(lines[k], '=') matches Some((other, _))
                ==> text::trimmed(other) != key),
    ensures
        fields::find(fields_of(lines, n), key) == Some(value),
    decreases n,
{
    let before = fields_of(lines, n - 1);
    if i < n - 1 {
        a_report_field_is_found(lines, n - 1, i, key, value);
        if let Some((k, v)) = text::split_at_first(lines[n - 1], '=') {
            assert(text::trimmed(k) != key);
            fields::a_value_is_found_again(before, text::trimmed(k), text::trimmed(v), key);
        }
    } else {
        text::a_text_is_split_at_the_first(key, '=', value);
        fields::a_value_is_found_again(before, key, value, key);
    }
}

/// A guest's child that starts is watched under its number, as nobody's life, and
/// is not the launcher's own.
pub proof fn a_started_child_is_watched(s: SupervisionView, index: int, pid: i32, lost: bool, i: int)
    requires
        0 <= index < MAX_PROCS,
        0 <= i,
    ensures
        ({
            let after = s.child_started(index, pid, lost);
            let t = after.procs[index];
            &&& t.pid == pid
            &&& !t.ours
            &&& t.spec_index is None
            &&& lost <==> t.status is Some
            &&& after.gone == (if lost {
                s.gone.push(index as usize)
            } else {
                s.gone
            })
            &&& i < s.procs.len() && i != index ==> after.procs[i] == s.procs[i]
        }),
{
}

} // verus!
