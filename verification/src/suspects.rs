//! Site minimisation: which loads and stores does a failing run need?
//!
//! Every stub stays in place and keeps counting, so hook counts, and with
//! them the schedule, do not shift. A *masked* site is one where a quantum
//! may not end; the switch falls on the next hook. Starting from the loads
//! and stores at which the failing run did switch, delta debugging finds a
//! set that is enough to reproduce the failure and from which no single
//! site can be dropped. Those are the suspects.
//!
//! A `Hunt` says which sets of sites to allow next and takes what came of
//! it; the runs are the caller's part.

use vstd::prelude::*;
use crate::ddmin;
use crate::ddmin::{Ddmin, DdminView, Key, Stage};
use crate::keys;
use crate::keys::{copy, holds, of_kind, switched_at, union, Program};
use crate::replay::{Ending, EndingView};
use crate::sites::{Site, SiteKind};
use crate::text;
use crate::text::{lines, push_decimal, push_hex, same_text, string_of};
use crate::words;

verus! {

pub struct Suspect {
    pub program: String,
    pub addr: u64,
    pub kind: SiteKind,
    /// Function, file and line when there are symbols
    pub location: String,
}

pub struct SuspectView {
    pub program: Seq<char>,
    pub addr: u64,
    pub kind: SiteKind,
    pub location: Seq<char>,
}

impl View for Suspect {
    type V = SuspectView;

    open spec fn view(&self) -> SuspectView {
        SuspectView {
            program: self.program@,
            addr: self.addr,
            kind: self.kind,
            location: self.location@,
        }
    }
}

pub struct Found {
    pub failure: String,
    pub candidates: usize,
    pub runs: u32,
    pub suspects: Vec<Suspect>,
}

/// What is asked now
#[derive(Debug, Clone, Copy, PartialEq, Eq, Structural)]
pub enum Phase {
    /// Whether the sites the run switched at are enough, and whether none is
    Check,
    /// A traced run with switches at branches and calls only
    Trace,
    /// The same questions of the branches and calls
    CheckBranches,
    Minimise,
    Done,
}

#[derive(Debug, Clone, Copy, PartialEq, Eq, Structural)]
pub enum Error {
    /// The seed does not fail.
    Passes(u64),
    /// Masking unused loads and stores made a difference.
    Outside,
    /// Masking unused branches and calls made a difference.
    Unused,
}

impl Error {
    pub open spec fn told(self) -> Seq<char> {
        match self {
            Error::Passes(seed) => "seed "@ + text::decimal(seed as nat)
                + " does not fail: nothing to minimise"@,
            Error::Outside => "masking the loads and stores the run never switched at changed it: is something outside the schedule at work?"@,
            Error::Unused => "masking unused branch and call sites changed the run"@,
        }
    }

    pub fn message(&self) -> (r: String)
        ensures
            r@ == self.told(),
    {
        match self {
            Error::Passes(seed) => {
                let mut out = "seed ".to_owned();
                push_decimal(&mut out, *seed);
                out.append(" does not fail: nothing to minimise");
                out
            },
            Error::Outside => "masking the loads and stores the run never switched at changed it: is something outside the schedule at work?".to_owned(),
            Error::Unused => "masking unused branch and call sites changed the run".to_owned(),
        }
    }
}

/// `entry N: status`
pub open spec fn failure_text(e: EndingView) -> Option<Seq<char>> {
    match e.failure {
        Some((n, status)) => Some("entry "@ + text::decimal(n as nat) + ": "@ + status),
        None => None,
    }
}

/// How a run failed, if it did
pub fn failure_of(e: &Ending) -> (r: Option<String>)
    ensures
        match r {
            Some(s) => Some(s@),
            None => None,
        } == failure_text(e@),
{
    match &e.failure {
        Some((n, status)) => {
            let mut out = "entry ".to_owned();
            push_decimal(&mut out, *n);
            out.append(": ");
            out.append(status.as_str());
            Some(out)
        },
        None => None,
    }
}

/// Whether a run failed the same way
pub fn fails_with(e: &Ending, failure: &str) -> (r: bool)
    ensures
        r == (failure_text(e@) == Some(failure@)),
{
    match failure_of(e) {
        Some(f) => same_text(f.as_str(), failure),
        None => false,
    }
}

pub struct Hunt {
    pub failure: String,
    pub phase: Phase,
    /// The sites being decided on: all of them are masked but the allowed
    pub universe: Vec<Key>,
    /// Those at which the run switched
    pub candidates: Vec<Key>,
    pub search: Ddmin,
    pub runs: u32,
    /// What there is to tell so far
    pub lines: Vec<String>,
}

#[verifier::ext_equal]
pub struct HuntView {
    pub failure: Seq<char>,
    pub phase: Phase,
    pub universe: Seq<Key>,
    pub candidates: Seq<Key>,
    pub search: DdminView,
    pub runs: u32,
    pub lines: Seq<Seq<char>>,
}

impl View for Hunt {
    type V = HuntView;

    open spec fn view(&self) -> HuntView {
        HuntView {
            failure: self.failure@,
            phase: self.phase,
            universe: self.universe@,
            candidates: self.candidates@,
            search: self.search@,
            runs: self.runs,
            lines: words::texts(self.lines@),
        }
    }
}

pub open spec fn opening(seed: u64, failure: Seq<char>, switched: nat, hooked: nat) -> Seq<char> {
    "reference: seed "@ + text::decimal(seed as nat) + " fails ("@ + failure
        + "); it switched at "@ + text::decimal(switched) + " of "@ + text::decimal(hooked)
        + " hooked loads and stores"@
}

pub open spec fn of_branches(switched: nat) -> Seq<char> {
    "that run switched at "@ + text::decimal(switched) + " hooked branches and calls"@
}

pub open spec fn smaller(left: nat) -> Seq<char> {
    "  still fails with "@ + text::decimal(left) + " sites"@
}

/// All loads and stores
pub open spec fn memory(programs: Seq<Program>) -> Seq<Key> {
    keys::kind_in(programs, true, programs.len() as int)
}

/// All branches and calls
pub open spec fn branches(programs: Seq<Program>) -> Seq<Key> {
    keys::kind_in(programs, false, programs.len() as int)
}

impl HuntView {
    pub open spec fn start(
        seed: u64,
        programs: Seq<Program>,
        failure: Seq<char>,
        report: Seq<char>,
        trace: Seq<char>,
    ) -> HuntView {
        let candidates = keys::switches(report, trace, memory(programs));
        HuntView {
            failure,
            phase: Phase::Check,
            universe: memory(programs),
            candidates,
            search: DdminView::start(Seq::empty()),
            runs: 1,
            lines: seq![opening(seed, failure, candidates.len(), memory(programs).len())],
        }
    }

    pub open spec fn wf(self, programs: int) -> bool {
        &&& self.search.wf()
        &&& keys::known(self.universe, programs)
        &&& self.phase == Phase::Minimise <==> self.search.stage != Stage::Done
    }

    /// The sets to allow, each alone
    pub open spec fn tests(self) -> Seq<Seq<Key>> {
        match self.phase {
            Phase::Check | Phase::CheckBranches => seq![self.candidates, Seq::empty()],
            Phase::Minimise => self.search.tests(),
            _ => Seq::empty(),
        }
    }

    pub open spec fn minimising(self) -> HuntView {
        let search = DdminView::start(self.candidates);
        HuntView {
            search,
            phase: if search.stage == Stage::Done {
                Phase::Done
            } else {
                Phase::Minimise
            },
            ..self
        }
    }

    /// What goes wrong with these results
    pub open spec fn error(self, results: Seq<bool>) -> Option<Error> {
        if self.phase == Phase::Check && !results[0] {
            Some(Error::Outside)
        } else if self.phase == Phase::CheckBranches && !results[0] {
            Some(Error::Unused)
        } else {
            None
        }
    }

    /// With what came of the sets: whether each failed the same way
    pub open spec fn tried(self, programs: Seq<Program>, results: Seq<bool>) -> HuntView {
        let h = HuntView { runs: self.runs.wrapping_add(results.len() as u32), ..self };
        match self.phase {
            Phase::Check => if results[1] {
                HuntView {
                    phase: Phase::Trace,
                    universe: keys::put_all(
                        memory(programs),
                        branches(programs),
                        branches(programs).len() as int,
                    ),
                    lines: h.lines.push(
                        "it fails without a switch at any load or store; trying branches and calls"@,
                    ),
                    ..h
                }
            } else {
                h.minimising()
            },
            Phase::CheckBranches => if results[1] {
                HuntView {
                    phase: Phase::Done,
                    lines: h.lines.push(
                        "it fails with no switch at any hooked instruction: blocking calls are enough"@,
                    ),
                    ..h
                }
            } else {
                h.minimising()
            },
            Phase::Minimise => {
                let search = self.search.tried(results);
                HuntView {
                    search,
                    phase: if search.stage == Stage::Done {
                        Phase::Done
                    } else {
                        Phase::Minimise
                    },
                    lines: if ddmin::first_failing(results, 0) is Some {
                        h.lines.push(smaller(search.current.len()))
                    } else {
                        h.lines
                    },
                    ..h
                }
            },
            _ => self,
        }
    }

    /// With the run that switched at branches and calls only
    pub open spec fn traced(
        self,
        programs: Seq<Program>,
        report: Seq<char>,
        trace: Seq<char>,
    ) -> HuntView {
        let candidates = keys::switches(report, trace, branches(programs));
        HuntView {
            phase: Phase::CheckBranches,
            candidates,
            lines: self.lines.push(of_branches(candidates.len())),
            ..self
        }
    }
}

impl Hunt {
    fn tell(&mut self, line: String)
        ensures
            final(self)@ == (HuntView { lines: old(self)@.lines.push(line@), ..old(self)@ }),
    {
        let ghost was = self@;
        self.lines.push(line);
        assert(self@.lines =~= was.lines.push(line@));
    }

    /// Begin with the run of the seed: how it failed, its report and its
    /// trace.
    pub fn start(
        seed: u64,
        programs: &Vec<Program>,
        failure: Option<String>,
        report: &str,
        trace: &str,
    ) -> (r: Result<Hunt, Error>)
        ensures
            match (failure, r) {
                (Some(f), Ok(h)) => h@ == HuntView::start(
                    seed,
                    programs@,
                    f@,
                    report@,
                    trace@,
                ) && h@.wf(programs@.len() as int),
                (None, Err(e)) => e == Error::Passes(seed),
                _ => false,
            },
    {
        let failure = match failure {
            Some(f) => f,
            None => {
                return Err(Error::Passes(seed));
            },
        };
        let universe = of_kind(programs, true);
        let candidates = switched_at(report, trace, &universe);
        let mut line = "reference: seed ".to_owned();
        push_decimal(&mut line, seed);
        line.append(" fails (");
        line.append(failure.as_str());
        line.append("); it switched at ");
        push_decimal(&mut line, candidates.len() as u64);
        line.append(" of ");
        push_decimal(&mut line, universe.len() as u64);
        line.append(" hooked loads and stores");
        let none: Vec<Key> = Vec::new();
        assert(none@ =~= Seq::empty());
        let search = Ddmin::new(none);
        let mut lines: Vec<String> = Vec::new();
        lines.push(line);
        let h = Hunt { failure, phase: Phase::Check, universe, candidates, search, runs: 1, lines };
        assert(h@.lines =~= seq![line@]);
        Ok(h)
    }

    /// The sets to allow next, each alone in a run of its own
    pub fn tests(&self) -> (r: Vec<Vec<Key>>)
        requires
            self@.search.wf(),
        ensures
            ddmin::sets(r@) == self@.tests(),
    {
        match self.phase {
            Phase::Check | Phase::CheckBranches => {
                let mut out: Vec<Vec<Key>> = Vec::new();
                out.push(copy(&self.candidates));
                out.push(Vec::new());
                assert(ddmin::sets(out@) =~= seq![self.candidates@, Seq::empty()]);
                out
            },
            Phase::Minimise => self.search.tests(),
            _ => {
                let none: Vec<Vec<Key>> = Vec::new();
                assert(ddmin::sets(none@) =~= Seq::<Seq<Key>>::empty());
                none
            },
        }
    }

    fn minimise(&mut self)
        requires
            old(self)@.search.wf(),
        ensures
            final(self)@ == old(self)@.minimising(),
            final(self)@.search.wf(),
    {
        self.search = Ddmin::new(copy(&self.candidates));
        self.phase = match self.search.stage {
            Stage::Done => Phase::Done,
            _ => Phase::Minimise,
        };
    }

    /// Go on with what came of the sets: whether each failed the same way.
    pub fn take(&mut self, programs: &Vec<Program>, results: &Vec<bool>) -> (r: Result<(), Error>)
        requires
            old(self)@.wf(programs@.len() as int),
            old(self).phase != Phase::Trace,
            old(self).phase != Phase::Done,
            results@.len() == old(self)@.tests().len(),
        ensures
            match r {
                Err(e) => old(self)@.error(results@) == Some(e) && *final(self) == *old(self),
                Ok(_) => old(self)@.error(results@) is None && final(self)@ == old(self)@.tried(
                    programs@,
                    results@,
                ) && final(self)@.wf(programs@.len() as int),
            },
    {
        match self.phase {
            Phase::Check => {
                if !results[0] {
                    return Err(Error::Outside);
                }
                self.runs = self.runs.wrapping_add(results.len() as u32);
                if results[1] {
                    let mem = of_kind(programs, true);
                    let rest = of_kind(programs, false);
                    proof {
                        keys::lemma_put_all_known(
                            mem@,
                            rest@,
                            rest@.len() as int,
                            programs@.len() as int,
                        );
                    }
                    self.universe = union(&mem, &rest);
                    self.phase = Phase::Trace;
                    self.tell(
                        "it fails without a switch at any load or store; trying branches and calls".to_owned(),
                    );
                } else {
                    self.minimise();
                }
            },
            Phase::CheckBranches => {
                if !results[0] {
                    return Err(Error::Unused);
                }
                self.runs = self.runs.wrapping_add(results.len() as u32);
                if results[1] {
                    self.phase = Phase::Done;
                    self.tell(
                        "it fails with no switch at any hooked instruction: blocking calls are enough".to_owned(),
                    );
                } else {
                    self.minimise();
                }
            },
            _ => {
                self.runs = self.runs.wrapping_add(results.len() as u32);
                let reduced: bool = self.search.take(results);
                if reduced {
                    let mut line = "  still fails with ".to_owned();
                    push_decimal(&mut line, self.search.current.len() as u64);
                    line.append(" sites");
                    self.tell(line);
                }
                self.phase = match self.search.stage {
                    Stage::Done => Phase::Done,
                    _ => Phase::Minimise,
                };
            },
        }
        Ok(())
    }

    /// The mask of the traced run
    pub fn trace_mask(&self, programs: &Vec<Program>) -> (r: String)
        requires
            self@.wf(programs@.len() as int),
        ensures
            r@ == keys::mask(
                self.universe@,
                programs@,
                branches(programs@),
                self.universe@.len() as int,
            ),
    {
        keys::mask_for(&self.universe, programs, &of_kind(programs, false))
    }

    /// Go on with the run that switched at branches and calls only.
    pub fn take_trace(&mut self, programs: &Vec<Program>, report: &str, trace: &str)
        requires
            old(self)@.wf(programs@.len() as int),
            old(self).phase == Phase::Trace,
        ensures
            final(self)@ == old(self)@.traced(programs@, report@, trace@),
            final(self)@.wf(programs@.len() as int),
    {
        let among = of_kind(programs, false);
        self.candidates = switched_at(report, trace, &among);
        self.phase = Phase::CheckBranches;
        let mut line = "that run switched at ".to_owned();
        push_decimal(&mut line, self.candidates.len() as u64);
        line.append(" hooked branches and calls");
        self.tell(line);
    }
}

/// Of the first `n` sites of program `p`, those that are needed
pub open spec fn needed(sites: Seq<Site>, p: u64, minimal: Seq<Key>, n: int) -> Seq<Site>
    decreases n,
{
    if n <= 0 {
        Seq::empty()
    } else {
        let before = needed(sites, p, minimal, n - 1);
        if minimal.contains((p, sites[n - 1].yield_pc)) {
            before.push(sites[n - 1])
        } else {
            before
        }
    }
}

/// The sites of a program that are needed
pub fn needed_sites(programs: &Vec<Program>, p: usize, minimal: &Vec<Key>) -> (r: Vec<Site>)
    requires
        p < programs@.len(),
    ensures
        r@ == needed(
            programs@[p as int].sites@,
            p as u64,
            minimal@,
            programs@[p as int].sites@.len() as int,
        ),
{
    let sites = &programs[p].sites;
    let mut out: Vec<Site> = Vec::new();
    let mut i: usize = 0;
    while i < sites.len()
        invariant
            i <= sites@.len(),
            out@ == needed(sites@, p as u64, minimal@, i as int),
        decreases sites@.len() - i,
    {
        if holds(minimal, (p as u64, sites[i].yield_pc)) {
            out.push(sites[i]);
        }
        i += 1;
    }
    out
}

/// A line per address, or the address where there is none
pub open spec fn places(lines: Seq<Seq<char>>, sites: Seq<Site>) -> Seq<Seq<char>> {
    Seq::new(
        sites.len(),
        |i: int|
            if i < lines.len() {
                lines[i]
            } else {
                text::hex(sites[i].addr as nat)
            },
    )
}

/// Function, file and line of sites, from what a symbolizer printed of
/// their addresses
pub fn located(printed: &str, sites: &Vec<Site>) -> (r: Vec<String>)
    ensures
        words::texts(r@) == places(text::lines_of(printed@), sites@),
{
    let all = lines(printed);
    let ghost ls = text::lines_of(printed@);
    let mut out: Vec<String> = Vec::new();
    let mut i: usize = 0;
    while i < sites.len()
        invariant
            i <= sites@.len(),
            all@.len() == ls.len(),
            forall|k: int| 0 <= k < all.len() ==> #[trigger] all@[k]@ == ls[k],
            words::texts(out@) == places(ls, sites@).take(i as int),
        decreases sites@.len() - i,
    {
        let ghost was = words::texts(out@);
        let mut s = String::new();
        if i < all.len() {
            assert(all@[i as int]@ == ls[i as int]);
            s = string_of(&all[i]);
        } else {
            push_hex(&mut s, sites[i].addr);
            assert(s@ =~= text::hex(sites@[i as int].addr as nat));
        }
        out.push(s);
        assert(words::texts(out@) =~= was.push(s@));
        assert(places(ls, sites@).take(i + 1) =~= places(ls, sites@).take(i as int).push(s@));
        i += 1;
    }
    assert(places(ls, sites@).take(i as int) =~= places(ls, sites@));
    out
}

/// Another suspect, unless it is like the one before
pub open spec fn push_new(s: Seq<SuspectView>, x: SuspectView) -> Seq<SuspectView> {
    if s.len() > 0 && s.last() == x {
        s
    } else {
        s.push(x)
    }
}

pub open spec fn with_sites(
    s: Seq<SuspectView>,
    program: Seq<char>,
    sites: Seq<Site>,
    locations: Seq<Seq<char>>,
    n: int,
) -> Seq<SuspectView>
    decreases n,
{
    if n <= 0 {
        s
    } else {
        push_new(
            with_sites(s, program, sites, locations, n - 1),
            SuspectView {
                program,
                addr: sites[n - 1].addr,
                kind: sites[n - 1].kind,
                location: locations[n - 1],
            },
        )
    }
}

pub open spec fn needed_of(programs: Seq<Program>, minimal: Seq<Key>, p: int) -> Seq<Site> {
    needed(programs[p].sites@, p as u64, minimal, programs[p].sites@.len() as int)
}

/// The suspects of the first `n` programs
pub open spec fn suspects_in(
    programs: Seq<Program>,
    minimal: Seq<Key>,
    locations: Seq<Vec<String>>,
    n: int,
) -> Seq<SuspectView>
    decreases n,
{
    if n <= 0 {
        Seq::empty()
    } else {
        let sites = needed_of(programs, minimal, n - 1);
        with_sites(
            suspects_in(programs, minimal, locations, n - 1),
            programs[n - 1].name@,
            sites,
            words::texts(locations[n - 1]@),
            sites.len() as int,
        )
    }
}

/// What suspects say
pub open spec fn suspected(v: Seq<Suspect>) -> Seq<SuspectView> {
    v.map_values(|s: Suspect| s@)
}

fn push_suspect(out: &mut Vec<Suspect>, x: Suspect)
    ensures
        suspected(final(out)@) == push_new(suspected(old(out)@), x@),
{
    let ghost was = suspected(out@);
    let n: usize = out.len();
    if n > 0 {
        let last = &out[n - 1];
        assert(was.last() == last@);
        if same_text(last.program.as_str(), x.program.as_str()) && last.addr == x.addr
            && same_kind(last.kind, x.kind) && same_text(
            last.location.as_str(),
            x.location.as_str(),
        ) {
            return;
        }
    }
    out.push(x);
    assert(suspected(out@) =~= was.push(x@));
}

fn same_kind(a: SiteKind, b: SiteKind) -> (r: bool)
    ensures
        r == (a == b),
{
    a == b
}

/// The suspects: the sites of the minimal set, each with its location
pub fn suspects_of(
    programs: &Vec<Program>,
    minimal: &Vec<Key>,
    locations: &Vec<Vec<String>>,
) -> (r: Vec<Suspect>)
    requires
        locations@.len() == programs@.len(),
        forall|p: int|
            0 <= p < programs@.len() ==> (#[trigger] locations@[p])@.len() == needed_of(
                programs@,
                minimal@,
                p,
            ).len(),
    ensures
        suspected(r@) == suspects_in(programs@, minimal@, locations@, programs@.len() as int),
{
    let mut out: Vec<Suspect> = Vec::new();
    assert(suspected(out@) =~= Seq::empty());
    let mut p: usize = 0;
    while p < programs.len()
        invariant
            p <= programs@.len() == locations@.len(),
            forall|p: int|
                0 <= p < programs@.len() ==> (#[trigger] locations@[p])@.len() == needed_of(
                    programs@,
                    minimal@,
                    p,
                ).len(),
            suspected(out@) == suspects_in(programs@, minimal@, locations@, p as int),
        decreases programs@.len() - p,
    {
        let sites = needed_sites(programs, p, minimal);
        let at = &locations[p];
        let ghost was = suspected(out@);
        assert(locations@[p as int]@.len() == needed_of(programs@, minimal@, p as int).len());
        let mut i: usize = 0;
        while i < sites.len()
            invariant
                i <= sites@.len() == at@.len(),
                p < programs@.len(),
                suspected(out@) == with_sites(
                    was,
                    programs@[p as int].name@,
                    sites@,
                    words::texts(at@),
                    i as int,
                ),
            decreases sites@.len() - i,
        {
            let x = Suspect {
                program: programs[p].name.clone(),
                addr: sites[i].addr,
                kind: sites[i].kind,
                location: at[i].clone(),
            };
            push_suspect(&mut out, x);
            i += 1;
        }
        p += 1;
    }
    out
}

/// A finished hunt that found a set of two or more holds no site that could
/// be dropped: the run without it was tried and did not fail the same way.
pub proof fn no_suspect_can_be_dropped(
    h: HuntView,
    programs: Seq<Program>,
    results: Seq<bool>,
    fails: spec_fn(Seq<Key>) -> bool,
    k: int,
)
    requires
        h.wf(programs.len() as int),
        h.phase == Phase::Minimise,
        results.len() == h.tests().len(),
        forall|i: int| 0 <= i < results.len() ==> #[trigger] results[i] == fails(h.tests()[i]),
        h.tried(programs, results).phase == Phase::Done,
        h.tried(programs, results).search.current.len() >= 2,
        0 <= k < h.tried(programs, results).search.current.len(),
    ensures
        !fails(h.tried(programs, results).search.current.remove(k)),
{
    ddmin::nothing_more_can_be_dropped(h.search, results, fails, k);
}

/// How a hunt goes on: where the sites that the run switched at are not enough
/// for the failure, something else is at work; where it fails without any, it
/// is looked for elsewhere; else the set is made smaller, and what is left of it
/// in the end are the suspects.
pub proof fn how_a_hunt_goes_on(h: HuntView, programs: Seq<Program>, results: Seq<bool>)
    requires
        results.len() == h.tests().len(),
    ensures
        h.phase == Phase::Check || h.phase == Phase::CheckBranches ==> h.tests().len() == 2
            && h.tests()[0] == h.candidates && h.tests()[1].len() == 0,
        h.phase == Phase::Check && !results[0] ==> h.error(results) == Some(Error::Outside),
        h.phase == Phase::CheckBranches && !results[0] ==> h.error(results) == Some(Error::Unused),
        (h.phase == Phase::Check || h.phase == Phase::CheckBranches) && results[0] ==> h.error(
            results,
        ) is None,
        h.phase == Phase::Check && results[1] ==> h.tried(programs, results).phase == Phase::Trace,
        h.phase == Phase::CheckBranches && results[1] ==> h.tried(programs, results).phase
            == Phase::Done && h.tried(programs, results).search == h.search,
        (h.phase == Phase::Check || h.phase == Phase::CheckBranches) && !results[1] ==> h.tried(
            programs,
            results,
        ).search.current == h.candidates && (h.candidates.len() >= 2 ==> h.tried(
            programs,
            results,
        ).phase == Phase::Minimise) && (h.candidates.len() < 2 ==> h.tried(programs, results).phase
            == Phase::Done),
        h.phase == Phase::Minimise ==> h.tests() == h.search.tests() && h.tried(
            programs,
            results,
        ).search == h.search.tried(results) && (h.tried(programs, results).phase == Phase::Done
            <==> h.search.tried(results).stage == Stage::Done),
        h.phase == Phase::Check || h.phase == Phase::CheckBranches || h.phase == Phase::Minimise
            ==> h.tried(programs, results).runs == h.runs.wrapping_add(results.len() as u32),
{
}

/// The sites named in the end are those of the minimal set, each with its
/// address.
pub proof fn the_needed_are_those_of_the_minimal_set(
    sites: Seq<Site>,
    p: u64,
    minimal: Seq<Key>,
)
    ensures
        needed(sites, p, minimal, sites.len() as int) == sites.filter(
            |s: Site| minimal.contains((p, s.yield_pc)),
        ),
{
    lemma_needed(sites, p, minimal, sites.len() as int);
    assert(sites.take(sites.len() as int) =~= sites);
}

proof fn lemma_needed(sites: Seq<Site>, p: u64, minimal: Seq<Key>, n: int)
    requires
        0 <= n <= sites.len(),
    ensures
        needed(sites, p, minimal, n) == sites.take(n).filter(
            |s: Site| minimal.contains((p, s.yield_pc)),
        ),
    decreases n,
{
    reveal(Seq::filter);
    if n > 0 {
        lemma_needed(sites, p, minimal, n - 1);
        assert(sites.take(n).drop_last() =~= sites.take(n - 1));
        assert(sites.take(n).last() == sites[n - 1]);
    } else {
        assert(sites.take(n) =~= Seq::<Site>::empty());
    }
}

/// With the branches and calls, the hunt looks at those that the run switched
/// at, and goes on with the same questions.
pub proof fn a_trace_brings_the_branches(
    h: HuntView,
    programs: Seq<Program>,
    report: Seq<char>,
    trace: Seq<char>,
    k: Key,
)
    ensures
        h.traced(programs, report, trace).phase == Phase::CheckBranches,
        h.traced(programs, report, trace).candidates.contains(k) ==> keys::kind_in(
            programs,
            false,
            programs.len() as int,
        ).contains(k),
        h.traced(programs, report, trace).universe == h.universe,
{
    let b = keys::kind_in(programs, false, programs.len() as int);
    let all = h.traced(programs, report, trace).candidates;
    let r = text::lines_of(report);
    let t = text::lines_of(trace);
    keys::switches_are_among_the_asked(
        keys::entries_of(r, r.len() as int),
        t,
        b,
        t.len() as int,
    );
    if all.contains(k) {
        let i = choose|i: int| 0 <= i < all.len() && all[i] == k;
        assert(b.contains(all[i]));
    }
}

/// Every site that is needed is named as a suspect, with its program, address,
/// kind and place.
pub proof fn every_needed_site_is_a_suspect(
    programs: Seq<Program>,
    minimal: Seq<Key>,
    locations: Seq<Vec<String>>,
    n: int,
    p: int,
    i: int,
)
    requires
        0 <= p < n <= programs.len(),
        0 <= i < needed_of(programs, minimal, p).len(),
    ensures
        suspects_in(programs, minimal, locations, n).contains(
            SuspectView {
                program: programs[p].name@,
                addr: needed_of(programs, minimal, p)[i].addr,
                kind: needed_of(programs, minimal, p)[i].kind,
                location: words::texts(locations[p]@)[i],
            },
        ),
    decreases n,
{
    let sites = needed_of(programs, minimal, n - 1);
    let before = suspects_in(programs, minimal, locations, n - 1);
    let places = words::texts(locations[n - 1]@);
    let one = SuspectView {
        program: programs[p].name@,
        addr: needed_of(programs, minimal, p)[i].addr,
        kind: needed_of(programs, minimal, p)[i].kind,
        location: words::texts(locations[p]@)[i],
    };
    if p < n - 1 {
        every_needed_site_is_a_suspect(programs, minimal, locations, n - 1, p, i);
        lemma_with_sites(before, programs[n - 1].name@, sites, places, sites.len() as int, 0, one);
    } else {
        lemma_with_sites(before, programs[n - 1].name@, sites, places, sites.len() as int, i, one);
    }
}

proof fn lemma_with_sites(
    s: Seq<SuspectView>,
    program: Seq<char>,
    sites: Seq<Site>,
    locations: Seq<Seq<char>>,
    n: int,
    i: int,
    x: SuspectView,
)
    requires
        0 <= n <= sites.len(),
        0 <= i,
    ensures
        s.contains(x) ==> with_sites(s, program, sites, locations, n).contains(x),
        i < n && x == (SuspectView {
            program,
            addr: sites[i].addr,
            kind: sites[i].kind,
            location: locations[i],
        }) ==> with_sites(s, program, sites, locations, n).contains(x),
    decreases n,
{
    if n > 0 {
        lemma_with_sites(s, program, sites, locations, n - 1, i, x);
        let before = with_sites(s, program, sites, locations, n - 1);
        let after = with_sites(s, program, sites, locations, n);
        if before.contains(x) {
            let k = choose|k: int| 0 <= k < before.len() && before[k] == x;
            assert(after[k] == x);
        }
        if i == n - 1 && x == (SuspectView {
            program,
            addr: sites[i].addr,
            kind: sites[i].kind,
            location: locations[i],
        }) {
            assert(after[after.len() - 1] == x);
        }
    }
}

/// How a failure is told is how it is read.
pub proof fn a_told_failure_is_read(e: EndingView)
    ensures
        e.failure matches Some((n, status)) ==> (failure_text(e) matches Some(s)
            && crate::replay::failure_of(s) == Some((n, status))),
        e.failure is None ==> failure_text(e) is None,
{
    if let Some((n, status)) = e.failure {
        crate::replay::a_failure_reads_back(n as nat, status);
    }
}

} // verus!
