//! From a run file to the guests of a run, and what a run must have to be
//! made and must not show afterwards.

use vstd::prelude::*;
use crate::environ;
use crate::environ::{fixed_env, layered};
use crate::fields;
use crate::launch;
use crate::launch::{Guest, RunOutcome};
use crate::manifest;
use crate::manifest::{Manifest, Process};
use crate::shared::{Faults, ALLOW_VAR, HOST_ROOT_VAR, RESTART_NEVER};
use crate::text;
use crate::text::push_decimal;
use crate::words;
use crate::words::joined;

verus! {

/// What keeps a run from being made, or from counting
#[derive(Debug, Clone, Copy, PartialEq, Eq, Structural)]
pub enum Error {
    /// A stop time without the supervisor
    StopAfter,
    /// Crashes or restarts without the supervisor
    Faults,
    /// So many restarts were not made.
    TableFull(u64),
    Deadlock,
}

impl Error {
    pub open spec fn told(self) -> Seq<char> {
        match self {
            Error::StopAfter => "stop-after needs the supervisor: it is a virtual time"@,
            Error::Faults => "crash and restart settings need the supervisor"@,
            Error::TableFull(n) => "the run's process table is full: "@ + text::decimal(n as nat)
                + " restarts were not made"@,
            Error::Deadlock => "deadlock: every guest thread was blocked; the run was killed"@,
        }
    }

    pub fn message(&self) -> (r: String)
        ensures
            r@ == self.told(),
    {
        match self {
            Error::StopAfter =>
                "stop-after needs the supervisor: it is a virtual time".to_owned(),
            Error::Faults => "crash and restart settings need the supervisor".to_owned(),
            Error::TableFull(n) => {
                let mut out = "the run's process table is full: ".to_owned();
                push_decimal(&mut out, *n);
                out.append(" restarts were not made");
                out
            },
            Error::Deadlock =>
                "deadlock: every guest thread was blocked; the run was killed".to_owned(),
        }
    }
}

#[verifier::ext_equal]
pub struct GuestView {
    pub program: Seq<char>,
    pub exe: Seq<char>,
    pub argv0: Option<Seq<char>>,
    pub args: Seq<Seq<char>>,
    pub host: u32,
    pub env: fields::Entries,
    pub stdout: Option<Seq<char>>,
    pub stderr: Option<Seq<char>>,
    pub cwd: Option<Seq<char>>,
    pub daemon: bool,
    pub faults: Faults,
}

impl View for Guest {
    type V = GuestView;

    open spec fn view(&self) -> GuestView {
        GuestView {
            program: self.program@,
            exe: self.exe@,
            argv0: launch::text_in(self.argv0),
            args: words::texts(self.args@),
            host: self.host,
            env: fields::pairs(self.env@),
            stdout: launch::text_in(self.stdout),
            stderr: launch::text_in(self.stderr),
            cwd: launch::text_in(self.cwd),
            daemon: self.daemon,
            faults: self.faults,
        }
    }
}

/// What is known of the machine when a run is made
pub struct Setting {
    /// For each process: the original program and the executable to run
    pub programs: Vec<(String, String)>,
    /// For each host: its directory
    pub roots: Vec<String>,
    /// The variables of `pass-env:` that are set, with their values
    pub passed: Vec<(String, String)>,
    /// The entries of `allow:`, resolved
    pub allow: Vec<String>,
    /// The run's directory
    pub scratch: String,
    /// Each guest's stdout and stderr go to files.
    pub capture: bool,
    pub capture_stderr: bool,
}

/// A name in a directory
pub open spec fn beside(dir: Seq<char>, name: Seq<char>) -> Seq<char> {
    dir + "/"@ + name
}

fn within(dir: &str, name: &str) -> (r: String)
    ensures
        r@ == beside(dir@, name@),
{
    let mut out = dir.to_owned();
    out.append("/");
    out.append(name);
    out
}

/// `name.<index>`
pub open spec fn numbered(name: Seq<char>, i: int) -> Seq<char> {
    name + "."@ + text::decimal(i as nat)
}

/// `name.<index>` in the run's directory
pub fn output_file(scratch: &str, name: &str, i: usize) -> (r: String)
    ensures
        r@ == beside(scratch@, numbered(name@, i as int)),
{
    let mut file = name.to_owned();
    file.append(".");
    push_decimal(&mut file, i as u64);
    within(scratch, file.as_str())
}

/// The host's directory is home: where the process starts and what its
/// path names are held to.
pub open spec fn host_env(root: Seq<char>) -> fields::Entries {
    seq![("PWD"@, root), ("HOME"@, root), ("TMPDIR"@, beside(root, "tmp"@))]
}

/// What the supervisor holds the process to
pub open spec fn policy(root: Seq<char>, allow: Seq<Seq<char>>) -> fields::Entries {
    seq![(HOST_ROOT_VAR@, root), (ALLOW_VAR@, words::all_joined(allow, ":"@))]
}

pub open spec fn over(e: fields::Entries, layer: fields::Entries) -> fields::Entries {
    environ::laid_over(e, layer, layer.len() as int)
}

/// The environment of a process: what is fixed, what is passed on, its
/// host's, the run file's, its own, and the policy, each over those before
pub open spec fn env_of(
    passed: fields::Entries,
    root: Seq<char>,
    run: fields::Entries,
    own: fields::Entries,
    allow: Seq<Seq<char>>,
) -> fields::Entries {
    over(
        over(
            over(over(over(over(Seq::empty(), environ::fixed()), passed), host_env(root)), run),
            own,
        ),
        policy(root, allow),
    )
}

/// Guest `i` of a run
pub open spec fn guest_of(m: Manifest, s: Setting, i: int) -> GuestView {
    let p = m.processes@[i];
    let root = s.roots@[p.host as int]@;
    GuestView {
        program: s.programs@[i].0@,
        exe: s.programs@[i].1@,
        argv0: Some(p.argv@[0]@),
        args: words::texts(p.argv@.skip(1)),
        host: p.host,
        env: env_of(
            fields::pairs(s.passed@),
            root,
            fields::pairs(m.env@),
            fields::pairs(p.env@),
            words::texts(s.allow@),
        ),
        stdout: if s.capture {
            Some(beside(s.scratch@, numbered("stdout"@, i)))
        } else {
            None
        },
        stderr: if s.capture_stderr {
            Some(beside(s.scratch@, numbered("stderr"@, i)))
        } else {
            None
        },
        cwd: Some(root),
        daemon: p.daemon,
        faults: p.faults,
    }
}

fn copy_pairs(v: &Vec<(String, String)>) -> (r: Vec<(String, String)>)
    ensures
        fields::pairs(r@) == fields::pairs(v@),
{
    let mut out: Vec<(String, String)> = Vec::new();
    let mut i: usize = 0;
    while i < v.len()
        invariant
            i <= v@.len(),
            fields::pairs(out@) == fields::pairs(v@).take(i as int),
        decreases v@.len() - i,
    {
        let ghost was = fields::pairs(out@);
        let p = (v[i].0.clone(), v[i].1.clone());
        out.push(p);
        assert(fields::pairs(out@) =~= was.push((p.0@, p.1@)));
        assert(fields::pairs(v@).take(i + 1) =~= was.push(fields::pairs(v@)[i as int]));
        i += 1;
    }
    assert(fields::pairs(v@).take(i as int) =~= fields::pairs(v@));
    out
}

fn process_env(m: &Manifest, s: &Setting, p: &Process, root: &str) -> (r: Vec<(String, String)>)
    ensures
        fields::pairs(r@) == env_of(
            fields::pairs(s.passed@),
            root@,
            fields::pairs(m.env@),
            fields::pairs(p.env@),
            words::texts(s.allow@),
        ),
{
    let mut home: Vec<(String, String)> = Vec::new();
    home.push(("PWD".to_owned(), root.to_owned()));
    home.push(("HOME".to_owned(), root.to_owned()));
    home.push(("TMPDIR".to_owned(), within(root, "tmp")));
    assert(fields::pairs(home@) =~= host_env(root@));
    let mut held: Vec<(String, String)> = Vec::new();
    held.push((HOST_ROOT_VAR.to_owned(), root.to_owned()));
    held.push((ALLOW_VAR.to_owned(), joined(&s.allow, ":")));
    assert(fields::pairs(held@) =~= policy(root@, words::texts(s.allow@)));
    let mut layers: Vec<Vec<(String, String)>> = Vec::new();
    layers.push(fixed_env());
    layers.push(copy_pairs(&s.passed));
    layers.push(home);
    layers.push(copy_pairs(&m.env));
    layers.push(copy_pairs(&p.env));
    layers.push(held);
    proof {
        reveal_with_fuel(environ::layers_of, 7);
    }
    layered(&layers)
}

fn rest_of(argv: &Vec<String>) -> (r: Vec<String>)
    requires
        argv@.len() > 0,
    ensures
        words::texts(r@) == words::texts(argv@.skip(1)),
{
    let mut out: Vec<String> = Vec::new();
    let ghost all = words::texts(argv@.skip(1));
    let mut i: usize = 1;
    assert(words::texts(out@) =~= all.take(0));
    while i < argv.len()
        invariant
            1 <= i <= argv@.len(),
            all == words::texts(argv@.skip(1)),
            words::texts(out@) == all.take(i - 1),
        decreases argv@.len() - i,
    {
        let ghost was = words::texts(out@);
        let a = argv[i].clone();
        out.push(a);
        assert(words::texts(out@) =~= was.push(a@));
        assert(all.take(i as int) =~= was.push(all[i - 1]));
        i += 1;
    }
    assert(all.take(i - 1) =~= all);
    out
}

/// What the run file's processes, the programs and the directories have to
/// do with each other
pub open spec fn fits(m: Manifest, s: Setting) -> bool {
    &&& s.programs@.len() == m.processes@.len()
    &&& forall|i: int|
        0 <= i < m.processes@.len() ==> (#[trigger] m.processes@[i]).argv@.len() > 0
            && m.processes@[i].host < s.roots@.len()
}

/// The guests of a run file's run
pub fn guests_of(m: &Manifest, s: &Setting) -> (r: Vec<Guest>)
    requires
        fits(*m, *s),
    ensures
        r@.len() == m.processes@.len(),
        forall|i: int| 0 <= i < r@.len() ==> (#[trigger] r@[i])@ == guest_of(*m, *s, i),
{
    let mut out: Vec<Guest> = Vec::new();
    let mut i: usize = 0;
    while i < m.processes.len()
        invariant
            fits(*m, *s),
            i <= m.processes@.len(),
            out@.len() == i,
            forall|k: int| 0 <= k < i ==> (#[trigger] out@[k])@ == guest_of(*m, *s, k),
        decreases m.processes@.len() - i,
    {
        let p = &m.processes[i];
        assert(m.processes@[i as int].argv@.len() > 0);
        let root = &s.roots[p.host as usize];
        let stdout: Option<String> = if s.capture {
            Some(output_file(s.scratch.as_str(), "stdout", i))
        } else {
            None
        };
        let stderr: Option<String> = if s.capture_stderr {
            Some(output_file(s.scratch.as_str(), "stderr", i))
        } else {
            None
        };
        let g = Guest {
            program: s.programs[i].0.clone(),
            exe: s.programs[i].1.clone(),
            argv0: Some(p.argv[0].clone()),
            args: rest_of(&p.argv),
            host: p.host,
            env: process_env(m, s, p, root.as_str()),
            stdout,
            stderr,
            cwd: Some(root.clone()),
            daemon: p.daemon,
            faults: p.faults,
        };
        assert(g@ =~= guest_of(*m, *s, i as int));
        out.push(g);
        i += 1;
    }
    out
}

/// Crashes or restarts are asked for.
pub open spec fn is_faulty(f: Faults) -> bool {
    f.restart != RESTART_NEVER || f.crash_hi_ns != 0
}

/// What a run lacks
pub open spec fn lacking(stop_at_ns: u64, supervised: bool, guests: Seq<Guest>) -> Option<Error> {
    if supervised {
        None
    } else if stop_at_ns != 0 {
        Some(Error::StopAfter)
    } else if exists|i: int| 0 <= i < guests.len() && is_faulty((#[trigger] guests[i]).faults) {
        Some(Error::Faults)
    } else {
        None
    }
}

/// Whether a run has what its settings need
pub fn check_run(stop_at_ns: u64, supervised: bool, guests: &Vec<Guest>) -> (r: Result<(), Error>)
    ensures
        match r {
            Ok(_) => lacking(stop_at_ns, supervised, guests@) is None,
            Err(e) => lacking(stop_at_ns, supervised, guests@) == Some(e),
        },
{
    if supervised {
        return Ok(());
    }
    if stop_at_ns != 0 {
        return Err(Error::StopAfter);
    }
    let mut i: usize = 0;
    while i < guests.len()
        invariant
            i <= guests@.len(),
            !supervised,
            stop_at_ns == 0,
            forall|k: int| 0 <= k < i ==> !is_faulty((#[trigger] guests@[k]).faults),
        decreases guests@.len() - i,
    {
        let f: Faults = guests[i].faults;
        if f.restart != RESTART_NEVER || f.crash_hi_ns != 0 {
            assert(is_faulty(guests@[i as int].faults));
            return Err(Error::Faults);
        }
        i += 1;
    }
    Ok(())
}

/// What keeps a run's outcome from counting
pub open spec fn spoiled(o: RunOutcome) -> Option<Error> {
    if o.totals.restarts_refused > 0 {
        Some(Error::TableFull(o.totals.restarts_refused))
    } else if o.deadlock {
        Some(Error::Deadlock)
    } else {
        None
    }
}

/// Whether a run's outcome counts
pub fn check_outcome(o: &RunOutcome) -> (r: Result<(), Error>)
    ensures
        match r {
            Ok(_) => spoiled(*o) is None,
            Err(e) => spoiled(*o) == Some(e),
        },
{
    if o.totals.restarts_refused > 0 {
        return Err(Error::TableFull(o.totals.restarts_refused));
    }
    if o.deadlock {
        return Err(Error::Deadlock);
    }
    Ok(())
}

/// However a run file sets its environment, a process is held to its own
/// host's directory.
pub proof fn a_guest_is_held_to_its_host(
    passed: fields::Entries,
    root: Seq<char>,
    run: fields::Entries,
    own: fields::Entries,
    allow: Seq<Seq<char>>,
)
    ensures
        fields::find(env_of(passed, root, run, own, allow), HOST_ROOT_VAR@) == Some(root),
        fields::find(env_of(passed, root, run, own, allow), ALLOW_VAR@) == Some(
            words::all_joined(allow, ":"@),
        ),
{
    let below = over(
        over(over(over(over(Seq::empty(), environ::fixed()), passed), host_env(root)), run),
        own,
    );
    let p = policy(root, allow);
    let once = environ::laid(below, HOST_ROOT_VAR@, root);
    let list = words::all_joined(allow, ":"@);
    reveal_with_fuel(environ::laid_over, 3);
    assert(over(below, p) == environ::laid(once, ALLOW_VAR@, list));
    environ::a_later_layer_wins(below, HOST_ROOT_VAR@, root, ALLOW_VAR@);
    environ::a_later_layer_wins(once, ALLOW_VAR@, list, HOST_ROOT_VAR@);
    reveal_strlit("REWRITE_HOST_ROOT");
    reveal_strlit("REWRITE_ALLOW");
    assert(HOST_ROOT_VAR@.len() != ALLOW_VAR@.len());
}

/// What is done with the run's directory
#[derive(Debug, Clone, Copy, PartialEq, Eq, Structural)]
pub enum Scratch {
    Make,
    /// An earlier run of ours made it: clear it first.
    Clear,
    /// It is someone's.
    Refuse,
}

/// An existing directory is only cleared if an earlier run marked it, or
/// nothing is in it.
pub fn scratch_use(exists: bool, marked: bool, empty: bool) -> (r: Scratch)
    ensures
        r == (if !exists {
            Scratch::Make
        } else if marked || empty {
            Scratch::Clear
        } else {
            Scratch::Refuse
        }),
{
    if !exists {
        Scratch::Make
    } else if marked || empty {
        Scratch::Clear
    } else {
        Scratch::Refuse
    }
}

/// Nothing in the layer says what the variable is.
pub open spec fn is_silent(layer: fields::Entries, name: Seq<char>) -> bool {
    forall|k: int| 0 <= k < layer.len() ==> (#[trigger] layer[k]).0 != name
}

/// Entry `i` is the layer's last word on the variable.
pub open spec fn last_word(layer: fields::Entries, name: Seq<char>, i: int) -> bool {
    0 <= i < layer.len() && layer[i].0 == name && forall|k: int|
        i < k < layer.len() ==> (#[trigger] layer[k]).0 != name
}

/// What a guest finds in its environment: what its entry of the run file says;
/// where that is silent, what the run file says for all; then its host's
/// directories; then what is passed on.
#[verifier::rlimit(40)]
pub proof fn a_guest_finds_its_own_variables(
    passed: fields::Entries,
    root: Seq<char>,
    run: fields::Entries,
    own: fields::Entries,
    allow: Seq<Seq<char>>,
    name: Seq<char>,
    i: int,
)
    requires
        name != HOST_ROOT_VAR@,
        name != ALLOW_VAR@,
    ensures
        ({
            let found = fields::find(env_of(passed, root, run, own, allow), name);
            let hosts = name == "PWD"@ || name == "HOME"@ || name == "TMPDIR"@;
            &&& last_word(own, name, i) ==> found == Some(own[i].1)
            &&& is_silent(own, name) && last_word(run, name, i) ==> found == Some(run[i].1)
            &&& is_silent(own, name) && is_silent(run, name) ==> {
                &&& name == "PWD"@ ==> found == Some(root)
                &&& name == "HOME"@ ==> found == Some(root)
                &&& name == "TMPDIR"@ ==> found == Some(root + "/"@ + "tmp"@)
                &&& !hosts && last_word(passed, name, i) ==> found == Some(passed[i].1)
                &&& !hosts && is_silent(passed, name) && name == "TZ"@ ==> found == Some("UTC"@)
                &&& !hosts && is_silent(passed, name) && name == "LC_ALL"@ ==> found == Some("C"@)
                &&& !hosts && is_silent(passed, name) && name == "LANG"@ ==> found == Some("C"@)
                &&& !hosts && is_silent(passed, name) && name == "USER"@ ==> found == Some(
                    "guest"@,
                )
            }
        }),
{
    let fixed = environ::fixed();
    let host = host_env(root);
    let last = policy(root, allow);
    let e0 = Seq::<(Seq<char>, Seq<char>)>::empty();
    let e1 = over(e0, fixed);
    let e2 = over(e1, passed);
    let e3 = over(e2, host);
    let e4 = over(e3, run);
    let e5 = over(e4, own);
    assert(is_silent(last, name)) by {
        assert(last[0].0 == HOST_ROOT_VAR@ && last[1].0 == ALLOW_VAR@);
    }
    environ::a_layer_decides_what_it_names(e5, last, name, 0, last.len() as int);
    environ::a_layer_decides_what_it_names(e4, own, name, i, own.len() as int);
    environ::a_layer_decides_what_it_names(e3, run, name, i, run.len() as int);
    lemma_names();
    assert(host.len() == 3);
    assert(host[0].0 == "PWD"@ && host[1].0 == "HOME"@ && host[2].0 == "TMPDIR"@);
    environ::a_layer_decides_what_it_names(e2, host, name, 0, 3);
    environ::a_layer_decides_what_it_names(e2, host, name, 1, 3);
    environ::a_layer_decides_what_it_names(e2, host, name, 2, 3);
    environ::a_layer_decides_what_it_names(e1, passed, name, i, passed.len() as int);
    assert(fixed.len() == 6);
    assert(fixed[0].0 == "PATH"@ && fixed[1].0 == "LANG"@ && fixed[2].0 == "LC_ALL"@ && fixed[3].0
        == "TZ"@ && fixed[4].0 == "USER"@ && fixed[5].0 == "LOGNAME"@);
    environ::a_layer_decides_what_it_names(e0, fixed, name, 1, 6);
    environ::a_layer_decides_what_it_names(e0, fixed, name, 2, 6);
    environ::a_layer_decides_what_it_names(e0, fixed, name, 3, 6);
    environ::a_layer_decides_what_it_names(e0, fixed, name, 4, 6);
}

proof fn lemma_names()
    ensures
        "PWD"@ != "HOME"@,
        "PWD"@ != "TMPDIR"@,
        "HOME"@ != "TMPDIR"@,
        "LANG"@ != "LC_ALL"@,
        "LANG"@ != "TZ"@,
        "LANG"@ != "USER"@,
        "LANG"@ != "LOGNAME"@,
        "LC_ALL"@ != "TZ"@,
        "LC_ALL"@ != "USER"@,
        "LC_ALL"@ != "LOGNAME"@,
        "TZ"@ != "USER"@,
        "TZ"@ != "LOGNAME"@,
        "USER"@ != "LOGNAME"@,
{
    reveal_strlit("PWD");
    reveal_strlit("HOME");
    reveal_strlit("TMPDIR");
    reveal_strlit("LANG");
    reveal_strlit("LC_ALL");
    reveal_strlit("TZ");
    reveal_strlit("USER");
    reveal_strlit("LOGNAME");
    assert("PWD"@.len() == 3 && "HOME"@.len() == 4 && "TMPDIR"@.len() == 6);
    assert("LANG"@.len() == 4 && "LC_ALL"@.len() == 6 && "TZ"@.len() == 2 && "USER"@.len() == 4
        && "LOGNAME"@.len() == 7);
    assert("LANG"@[0] == 'L' && "USER"@[0] == 'U');
}

/// Without the supervisor a run can neither stop at a virtual time nor crash or
/// restart anyone; with it nothing is lacking.
pub proof fn only_the_supervisor_keeps_virtual_time(
    stop_at_ns: u64,
    supervised: bool,
    guests: Seq<Guest>,
)
    ensures
        lacking(stop_at_ns, supervised, guests) is None <==> supervised || stop_at_ns == 0 && forall|
            i: int,
        |
            0 <= i < guests.len() ==> (#[trigger] guests[i]).faults.restart == RESTART_NEVER
                && guests[i].faults.crash_hi_ns == 0,
{
    if exists|i: int| 0 <= i < guests.len() && is_faulty((#[trigger] guests[i]).faults) {
        let i = choose|i: int| 0 <= i < guests.len() && is_faulty((#[trigger] guests[i]).faults);
        assert(!(guests[i].faults.restart == RESTART_NEVER && guests[i].faults.crash_hi_ns == 0));
    } else {
        assert forall|i: int| 0 <= i < guests.len() implies (
        #[trigger] guests[i]).faults.restart == RESTART_NEVER && guests[i].faults.crash_hi_ns
            == 0 by {
            assert(!is_faulty(guests[i].faults));
        }
    }
}

/// A run is spoiled by restarts that were not made, or by a deadlock.
pub proof fn what_spoils_a_run(o: RunOutcome)
    ensures
        spoiled(o) is None <==> o.totals.restarts_refused == 0 && !o.deadlock,
        o.totals.restarts_refused == 0 && o.deadlock ==> spoiled(o) == Some(Error::Deadlock),
{
}

} // verus!
