//! The run file: which processes start on which virtual host, and the
//! settings of the run. YAML:
//!
//! ```yaml
//! seed: 7                  # optional; the command line overrides these
//! quantum: 1000..10000
//! heap-size: 32G
//! mem-hook-rate: 1/16
//! net-latency: 5ms
//! switch-cost: 10us
//! stop-after: 30s
//! wall-limit: 60s
//! outside-network: refuse  # or allow
//! env: { LOG_LEVEL: debug }
//! pass-env: [SSL_CERT_FILE]
//! allow:                   # extra paths every host may touch
//!   - /opt/site-content
//! hosts:                   # in order: 10.0.0.1, 10.0.0.2, ...
//!   - name: alpha
//!     files: [site/index.html, site/img]   # copied into the host's directory
//!     processes:
//!       - [server, --port, 8080]        # argv verbatim
//!       - client alpha 8080             # or a line, split on whitespace
//!       - argv: [worker, "two words"]   # or a map, with an environment
//!         env: { MODE: fast }
//! ```
//!
//! Processes start in file order. `argv[0]` names the program, relative to
//! the run file, and reaches the guest as written. A host's directory is
//! never named here: the launcher makes a fresh one for every run.
//!
//! The YAML itself is read elsewhere; this module goes by the tree of values
//! that it stands for.

use vstd::prelude::*;
use crate::fields;
use crate::shared::{
    Faults, NO_LIMIT, RESTART_ALWAYS, RESTART_NEVER, RESTART_ON_FAILURE,
};
use crate::text;
use crate::text::chars_of;
use crate::units;
use crate::units::parse_span;
use crate::words;
use crate::words::{push_signed, words};

pub use crate::units::{parse_duration_ns, parse_size};

verus! {

/// A value of the run file. A number that is not a whole one of 64 bits is
/// its text.
pub enum Node {
    Null,
    Bool(bool),
    Int(i64),
    /// A whole number above those, and its text
    Big(u64, String),
    Float(String),
    Text(String),
    List(Vec<Node>),
    /// In the order of the file
    Fields(Vec<(String, Node)>),
}

pub struct Process {
    /// Index into `Manifest::hosts`
    pub host: u32,
    pub argv: Vec<String>,
    pub env: Vec<(String, String)>,
    /// Killed when every process that is not a daemon has exited
    pub daemon: bool,
    /// Crashes to inject into it and whether it is started again
    pub faults: Faults,
}

pub struct Host {
    pub name: String,
    /// Inputs copied into the host's fresh directory, relative to the run file
    pub files: Vec<String>,
}

pub struct Manifest {
    pub hosts: Vec<Host>,
    pub processes: Vec<Process>,
    pub seed: Option<u64>,
    /// As on the command line: `LO..HI`, `1/16`, `5ms`
    pub quantum: Option<String>,
    pub mem_hook_rate: Option<String>,
    pub net_latency: Option<String>,
    pub switch_cost: Option<String>,
    pub heap_size: Option<String>,
    pub stop_after: Option<String>,
    pub wall_limit: Option<String>,
    /// Connections beyond the virtual network reach the real one
    pub outside_network: bool,
    /// For every process
    pub env: Vec<(String, String)>,
    /// Names of variables that are inherited on purpose
    pub pass_env: Vec<String>,
    pub allow: Vec<String>,
}

pub struct ProcessView {
    pub host: u32,
    pub argv: Seq<Seq<char>>,
    pub env: Seq<(Seq<char>, Seq<char>)>,
    pub daemon: bool,
    pub faults: Faults,
}

pub struct HostView {
    pub name: Seq<char>,
    pub files: Seq<Seq<char>>,
}

pub struct ManifestView {
    pub hosts: Seq<HostView>,
    pub processes: Seq<ProcessView>,
    pub seed: Option<u64>,
    pub quantum: Option<Seq<char>>,
    pub mem_hook_rate: Option<Seq<char>>,
    pub net_latency: Option<Seq<char>>,
    pub switch_cost: Option<Seq<char>>,
    pub heap_size: Option<Seq<char>>,
    pub stop_after: Option<Seq<char>>,
    pub wall_limit: Option<Seq<char>>,
    pub outside_network: bool,
    pub env: Seq<(Seq<char>, Seq<char>)>,
    pub pass_env: Seq<Seq<char>>,
    pub allow: Seq<Seq<char>>,
}

/// A text, if there is one
pub open spec fn maybe(s: Option<String>) -> Option<Seq<char>> {
    match s {
        Some(s) => Some(s@),
        None => None,
    }
}

impl View for Process {
    type V = ProcessView;

    open spec fn view(&self) -> ProcessView {
        ProcessView {
            host: self.host,
            argv: words::texts(self.argv@),
            env: fields::pairs(self.env@),
            daemon: self.daemon,
            faults: self.faults,
        }
    }
}

impl View for Host {
    type V = HostView;

    open spec fn view(&self) -> HostView {
        HostView { name: self.name@, files: words::texts(self.files@) }
    }
}

impl View for Manifest {
    type V = ManifestView;

    open spec fn view(&self) -> ManifestView {
        ManifestView {
            hosts: self.hosts@.map_values(|h: Host| h@),
            processes: self.processes@.map_values(|p: Process| p@),
            seed: self.seed,
            quantum: maybe(self.quantum),
            mem_hook_rate: maybe(self.mem_hook_rate),
            net_latency: maybe(self.net_latency),
            switch_cost: maybe(self.switch_cost),
            heap_size: maybe(self.heap_size),
            stop_after: maybe(self.stop_after),
            wall_limit: maybe(self.wall_limit),
            outside_network: self.outside_network,
            env: fields::pairs(self.env@),
            pass_env: words::texts(self.pass_env@),
            allow: words::texts(self.allow@),
        }
    }
}

/// What is wrong with a run file
#[derive(Debug)]
pub enum Error {
    /// A key that means nothing where it stands, and those that would
    Unknown(String, &'static str),
    /// A key that must be there
    Missing(String),
    /// The value of a key is not what it must be
    Wrong(String),
    HostName(String),
    Twice(String),
    /// The process has no program; the host's name
    NoProgram(String),
    NoProcesses,
    /// The restart settings of a process need a restart policy
    NoPolicy,
}

pub enum ErrorView {
    Unknown(Seq<char>, Seq<char>),
    Missing(Seq<char>),
    Wrong(Seq<char>),
    HostName(Seq<char>),
    Twice(Seq<char>),
    NoProgram(Seq<char>),
    NoProcesses,
    NoPolicy,
}

impl View for Error {
    type V = ErrorView;

    open spec fn view(&self) -> ErrorView {
        match *self {
            Error::Unknown(s, known) => ErrorView::Unknown(s@, known@),
            Error::Missing(s) => ErrorView::Missing(s@),
            Error::Wrong(s) => ErrorView::Wrong(s@),
            Error::HostName(s) => ErrorView::HostName(s@),
            Error::Twice(s) => ErrorView::Twice(s@),
            Error::NoProgram(s) => ErrorView::NoProgram(s@),
            Error::NoProcesses => ErrorView::NoProcesses,
            Error::NoPolicy => ErrorView::NoPolicy,
        }
    }
}

/// The text in quotes, with what cannot stand in them escaped, as `Debug` of
/// `str` writes it
pub uninterp spec fn quoted_text(s: Seq<char>) -> Seq<char>;

/// `Debug` of `str`, through `format!`. How each character is escaped is
/// named, not stated.
#[verifier::external_body]
fn quoted(s: &str) -> (r: String)
    ensures
        r@ == quoted_text(s@),
{
    format!("{s:?}")
}

impl ErrorView {
    /// What is told of it
    pub open spec fn told(self) -> Seq<char> {
        "run file: "@ + match self {
            ErrorView::Unknown(s, known) => "unknown key "@ + s + ", expected one of "@ + known,
            ErrorView::Missing(s) => "missing key "@ + s,
            ErrorView::Wrong(s) => "bad value of "@ + s,
            ErrorView::HostName(s) => "host name "@ + quoted_text(s) + " must be letters, digits, '-' or '.'"@,
            ErrorView::Twice(s) => "host "@ + s + " declared twice"@,
            ErrorView::NoProgram(s) => "host "@ + s + " has a process with no program"@,
            ErrorView::NoProcesses => "no processes"@,
            ErrorView::NoPolicy => "restart-delay and max-restarts need a restart policy"@,
        }
    }
}

impl Error {
    /// What to tell of it
    pub fn message(&self) -> (r: String)
        ensures
            r@ == self@.told(),
    {
        let mut out = String::new();
        out.append("run file: ");
        match self {
            Error::Unknown(s, known) => {
                out.append("unknown key ");
                out.append(s.as_str());
                out.append(", expected one of ");
                out.append(*known);
            },
            Error::Missing(s) => {
                out.append("missing key ");
                out.append(s.as_str());
            },
            Error::Wrong(s) => {
                out.append("bad value of ");
                out.append(s.as_str());
            },
            Error::HostName(s) => {
                out.append("host name ");
                out.append(quoted(s.as_str()).as_str());
                out.append(" must be letters, digits, '-' or '.'");
            },
            Error::Twice(s) => {
                out.append("host ");
                out.append(s.as_str());
                out.append(" declared twice");
            },
            Error::NoProgram(s) => {
                out.append("host ");
                out.append(s.as_str());
                out.append(" has a process with no program");
            },
            Error::NoProcesses => {
                out.append("no processes");
            },
            Error::NoPolicy => {
                out.append("restart-delay and max-restarts need a restart policy");
            },
        }
        assert(out@ =~= self@.told());
        out
    }
}

/// A result seen by its views
pub open spec fn seen<T: View>(r: Result<T, Error>) -> Result<T::V, ErrorView> {
    match r {
        Ok(v) => Ok(v@),
        Err(e) => Err(e@),
    }
}

/// A scalar used as an argument. Numbers and booleans are taken as their
/// text.
pub open spec fn scalar(n: Node) -> Option<Seq<char>> {
    match n {
        Node::Bool(b) => Some(
            if b {
                "true"@
            } else {
                "false"@
            },
        ),
        Node::Int(i) => Some(words::signed(i as int)),
        Node::Big(_, s) => Some(s@),
        Node::Float(s) => Some(s@),
        Node::Text(s) => Some(s@),
        _ => None,
    }
}

fn scalar_text(n: &Node) -> (r: Option<String>)
    ensures
        maybe(r) == scalar(*n),
{
    match n {
        Node::Bool(b) => Some(
            if *b {
                "true".to_owned()
            } else {
                "false".to_owned()
            },
        ),
        Node::Int(i) => {
            let mut out = String::new();
            push_signed(&mut out, *i);
            assert(out@ =~= words::signed(*i as int));
            Some(out)
        },
        Node::Big(_, s) => Some(s.clone()),
        Node::Float(s) => Some(s.clone()),
        Node::Text(s) => Some(s.clone()),
        _ => None,
    }
}

/// The value of a key, if it has one
pub open spec fn value_of(fields: Seq<(String, Node)>, key: Seq<char>) -> Option<Node>
    decreases fields.len(),
{
    if fields.len() == 0 {
        None
    } else if fields[0].0@ == key {
        match fields[0].1 {
            Node::Null => None,
            n => Some(n),
        }
    } else {
        value_of(fields.skip(1), key)
    }
}

fn get<'a>(fields: &'a Vec<(String, Node)>, key: &str) -> (r: Option<&'a Node>)
    ensures
        match r {
            Some(n) => value_of(fields@, key@) == Some(*n),
            None => value_of(fields@, key@) is None,
        },
{
    let mut i: usize = 0;
    assert(fields@.skip(0) =~= fields@);
    while i < fields.len()
        invariant
            i <= fields@.len(),
            value_of(fields@, key@) == value_of(fields@.skip(i as int), key@),
        decreases fields@.len() - i,
    {
        let f = &fields[i];
        assert(fields@.skip(i as int).skip(1) =~= fields@.skip(i + 1));
        if text::same_text(f.0.as_str(), key) {
            return match &f.1 {
                Node::Null => None,
                n => Some(n),
            };
        }
        i += 1;
    }
    None
}

/// The first key that is none of those known
pub open spec fn stray(fields: Seq<(String, Node)>, known: Seq<Seq<char>>) -> Option<Seq<char>>
    decreases fields.len(),
{
    if fields.len() == 0 {
        None
    } else if !known.contains(fields[0].0@) {
        Some(fields[0].0@)
    } else {
        stray(fields.skip(1), known)
    }
}

fn find_stray(fields: &Vec<(String, Node)>, known: &Vec<&str>) -> (r: Option<String>)
    ensures
        maybe(r) == stray(fields@, known@.map_values(|s: &str| s@)),
{
    let ghost names = known@.map_values(|s: &str| s@);
    let mut i: usize = 0;
    assert(fields@.skip(0) =~= fields@);
    while i < fields.len()
        invariant
            i <= fields@.len(),
            names == known@.map_values(|s: &str| s@),
            stray(fields@, names) == stray(fields@.skip(i as int), names),
        decreases fields@.len() - i,
    {
        let name = fields[i].0.as_str();
        assert(fields@.skip(i as int).skip(1) =~= fields@.skip(i + 1));
        let mut k: usize = 0;
        let mut found: bool = false;
        while k < known.len()
            invariant
                k <= known@.len(),
                names == known@.map_values(|s: &str| s@),
                found ==> names.contains(name@),
                !found ==> forall|j: int| 0 <= j < k ==> #[trigger] names[j] != name@,
            decreases known@.len() - k,
        {
            if text::same_text(known[k], name) {
                assert(names[k as int] == name@);
                found = true;
            }
            k += 1;
        }
        if !found {
            return Some(fields[i].0.clone());
        }
        i += 1;
    }
    None
}

/// A list of texts, none where the key is not there
pub open spec fn text_list(n: Option<Node>) -> Option<Seq<Seq<char>>> {
    match n {
        None => Some(Seq::empty()),
        Some(Node::List(v)) => all_texts(v@),
        Some(_) => None,
    }
}

pub open spec fn all_texts(v: Seq<Node>) -> Option<Seq<Seq<char>>>
    decreases v.len(),
{
    if v.len() == 0 {
        Some(Seq::empty())
    } else {
        match (all_texts(v.drop_last()), v.last()) {
            (Some(s), Node::Text(t)) => Some(s.push(t@)),
            _ => None,
        }
    }
}

/// A list of scalars, as their texts
pub open spec fn all_scalars(v: Seq<Node>) -> Option<Seq<Seq<char>>>
    decreases v.len(),
{
    if v.len() == 0 {
        Some(Seq::empty())
    } else {
        match (all_scalars(v.drop_last()), scalar(v.last())) {
            (Some(s), Some(t)) => Some(s.push(t)),
            _ => None,
        }
    }
}

/// Names with scalars, as their texts, in the order of the names
pub open spec fn all_pairs(v: Seq<(String, Node)>) -> Option<Seq<(Seq<char>, Seq<char>)>>
    decreases v.len(),
{
    if v.len() == 0 {
        Some(Seq::empty())
    } else {
        match (all_pairs(v.drop_last()), scalar(v.last().1)) {
            (Some(s), Some(t)) => Some(fields::put(s, v.last().0@, t)),
            _ => None,
        }
    }
}

/// An environment, none where the key is not there
pub open spec fn environment(n: Option<Node>) -> Option<Seq<(Seq<char>, Seq<char>)>> {
    match n {
        None => Some(Seq::empty()),
        Some(Node::Fields(f)) => all_pairs(f@),
        Some(_) => None,
    }
}

proof fn lemma_texts_fail(v: Seq<Node>, n: int)
    requires
        0 <= n <= v.len(),
        all_texts(v.take(n)) is None,
    ensures
        all_texts(v) is None,
    decreases v.len() - n,
{
    if n < v.len() {
        assert(v.take(n + 1).drop_last() =~= v.take(n));
        lemma_texts_fail(v, n + 1);
    } else {
        assert(v.take(n) =~= v);
    }
}

proof fn lemma_scalars_fail(v: Seq<Node>, n: int)
    requires
        0 <= n <= v.len(),
        all_scalars(v.take(n)) is None,
    ensures
        all_scalars(v) is None,
    decreases v.len() - n,
{
    if n < v.len() {
        assert(v.take(n + 1).drop_last() =~= v.take(n));
        lemma_scalars_fail(v, n + 1);
    } else {
        assert(v.take(n) =~= v);
    }
}

proof fn lemma_pairs_fail(v: Seq<(String, Node)>, n: int)
    requires
        0 <= n <= v.len(),
        all_pairs(v.take(n)) is None,
    ensures
        all_pairs(v) is None,
    decreases v.len() - n,
{
    if n < v.len() {
        assert(v.take(n + 1).drop_last() =~= v.take(n));
        lemma_pairs_fail(v, n + 1);
    } else {
        assert(v.take(n) =~= v);
    }
}

/// Strings, if all are
pub open spec fn maybe_texts(v: Option<Vec<String>>) -> Option<Seq<Seq<char>>> {
    match v {
        Some(v) => Some(words::texts(v@)),
        None => None,
    }
}

fn texts_in(v: &Vec<Node>) -> (r: Option<Vec<String>>)
    ensures
        maybe_texts(r) == all_texts(v@),
{
    let mut out: Vec<String> = Vec::new();
    let mut i: usize = 0;
    assert(words::texts(out@) =~= Seq::<Seq<char>>::empty());
    while i < v.len()
        invariant
            i <= v@.len(),
            all_texts(v@.take(i as int)) == Some(words::texts(out@)),
        decreases v@.len() - i,
    {
        proof {
            assert(v@.take(i + 1).drop_last() =~= v@.take(i as int));
        }
        match &v[i] {
            Node::Text(s) => {
                let ghost was = out@;
                out.push(s.clone());
                assert(words::texts(out@) =~= words::texts(was).push(s@));
            },
            _ => {
                proof {
                    lemma_texts_fail(v@, i + 1);
                }
                return None;
            },
        }
        i += 1;
    }
    assert(v@.take(i as int) =~= v@);
    Some(out)
}

fn scalars_in(v: &Vec<Node>) -> (r: Option<Vec<String>>)
    ensures
        maybe_texts(r) == all_scalars(v@),
{
    let mut out: Vec<String> = Vec::new();
    let mut i: usize = 0;
    assert(words::texts(out@) =~= Seq::<Seq<char>>::empty());
    while i < v.len()
        invariant
            i <= v@.len(),
            all_scalars(v@.take(i as int)) == Some(words::texts(out@)),
        decreases v@.len() - i,
    {
        proof {
            assert(v@.take(i + 1).drop_last() =~= v@.take(i as int));
        }
        match scalar_text(&v[i]) {
            Some(s) => {
                let ghost was = out@;
                out.push(s);
                assert(words::texts(out@) =~= words::texts(was).push(s@));
            },
            None => {
                proof {
                    lemma_scalars_fail(v@, i + 1);
                }
                return None;
            },
        }
        i += 1;
    }
    assert(v@.take(i as int) =~= v@);
    Some(out)
}

fn list_of_texts(n: Option<&Node>) -> (r: Option<Vec<String>>)
    ensures
        maybe_texts(r) == text_list(
            match n {
                Some(n) => Some(*n),
                None => None,
            },
        ),
{
    match n {
        None => {
            let none: Vec<String> = Vec::new();
            assert(words::texts(none@) =~= Seq::<Seq<char>>::empty());
            Some(none)
        },
        Some(Node::List(v)) => texts_in(v),
        Some(_) => None,
    }
}

fn pairs_in(fields: &Vec<(String, Node)>) -> (r: Option<Vec<(String, String)>>)
    ensures
        match r {
            Some(v) => Some(fields::pairs(v@)),
            None => None,
        } == all_pairs(fields@),
{
    let mut out: Vec<(String, String)> = Vec::new();
    let mut i: usize = 0;
    assert(fields::pairs(out@) =~= Seq::<(Seq<char>, Seq<char>)>::empty());
    while i < fields.len()
        invariant
            i <= fields@.len(),
            all_pairs(fields@.take(i as int)) == Some(fields::pairs(out@)),
        decreases fields@.len() - i,
    {
        proof {
            assert(fields@.take(i + 1).drop_last() =~= fields@.take(i as int));
        }
        match scalar_text(&fields[i].1) {
            Some(s) => {
                let name = fields[i].0.clone();
                fields::set(&mut out, name, s);
            },
            None => {
                proof {
                    lemma_pairs_fail(fields@, i + 1);
                }
                return None;
            },
        }
        i += 1;
    }
    assert(fields@.take(i as int) =~= fields@);
    Some(out)
}

fn env_of(n: Option<&Node>) -> (r: Option<Vec<(String, String)>>)
    ensures
        match r {
            Some(v) => Some(fields::pairs(v@)),
            None => None,
        } == environment(
            match n {
                Some(n) => Some(*n),
                None => None,
            },
        ),
{
    match n {
        None => {
            let none: Vec<(String, String)> = Vec::new();
            assert(fields::pairs(none@) =~= Seq::<(Seq<char>, Seq<char>)>::empty());
            Some(none)
        },
        Some(Node::Fields(f)) => pairs_in(f),
        Some(_) => None,
    }
}

/// A count that fits, or `NO_LIMIT` where there is none
pub open spec fn limit(n: Option<Node>) -> Option<u32> {
    match n {
        None => Some(NO_LIMIT),
        Some(Node::Int(i)) => if 0 <= i <= u32::MAX {
            Some(i as u32)
        } else {
            None
        },
        Some(_) => None,
    }
}

fn limit_of(n: Option<&Node>) -> (r: Option<u32>)
    ensures
        r == limit(
            match n {
                Some(n) => Some(*n),
                None => None,
            },
        ),
{
    match n {
        None => Some(NO_LIMIT),
        Some(Node::Int(i)) => if 0 <= *i && *i <= 0xFFFF_FFFF {
            Some(*i as u32)
        } else {
            None
        },
        Some(_) => None,
    }
}

/// A range of times that does not begin at zero
pub open spec fn times(n: Node) -> Option<(u64, u64)> {
    match scalar(n) {
        Some(s) => match units::span(s) {
            Some((lo, hi)) => if lo > 0 {
                Some((lo, hi))
            } else {
                None
            },
            None => None,
        },
        None => None,
    }
}

fn times_of(n: &Node) -> (r: Option<(u64, u64)>)
    ensures
        r == times(*n),
{
    match scalar_text(n) {
        Some(s) => match parse_span(s.as_str()) {
            Some((lo, hi)) => if lo > 0 {
                Some((lo, hi))
            } else {
                None
            },
            None => None,
        },
        None => None,
    }
}

/// When a process is started again
pub open spec fn policy(n: Option<Node>) -> Option<u8> {
    match n {
        None => Some(RESTART_NEVER),
        Some(Node::Text(s)) => if s@ == "never"@ {
            Some(RESTART_NEVER)
        } else if s@ == "on-failure"@ {
            Some(RESTART_ON_FAILURE)
        } else if s@ == "always"@ {
            Some(RESTART_ALWAYS)
        } else {
            None
        },
        Some(_) => None,
    }
}

fn policy_of(n: Option<&Node>) -> (r: Option<u8>)
    ensures
        r == policy(
            match n {
                Some(n) => Some(*n),
                None => None,
            },
        ),
{
    match n {
        None => Some(RESTART_NEVER),
        Some(Node::Text(s)) => {
            let t = s.as_str();
            if text::same_text(t, "never") {
                Some(RESTART_NEVER)
            } else if text::same_text(t, "on-failure") {
                Some(RESTART_ON_FAILURE)
            } else if text::same_text(t, "always") {
                Some(RESTART_ALWAYS)
            } else {
                None
            }
        },
        Some(_) => None,
    }
}

/// How long a process stays down where the run file does not say
pub const RESTART_DELAY_NS: u64 = 100_000_000;

/// The crashes to inject: after what times, and how many
pub open spec fn crashes(n: Option<Node>) -> Result<(u64, u64, u32), ErrorView> {
    match n {
        None => Ok((0, 0, 0)),
        Some(Node::Fields(f)) => match stray(f@, seq!["every"@, "times"@]) {
            Some(key) => Err(ErrorView::Unknown(key, "every, times"@)),
            None => match value_of(f@, "every"@) {
                None => Err(ErrorView::Missing("every"@)),
                Some(every) => match (times(every), limit(value_of(f@, "times"@))) {
                    (Some((lo, hi)), Some(n)) => Ok((lo, hi, n)),
                    (None, _) => Err(ErrorView::Wrong("every"@)),
                    (Some(_), None) => Err(ErrorView::Wrong("times"@)),
                },
            },
        },
        Some(_) => Err(ErrorView::Wrong("crash"@)),
    }
}

/// What a process's settings say of crashes and restarts
pub open spec fn faults(f: Seq<(String, Node)>) -> Result<Faults, ErrorView> {
    let delay = value_of(f, "restart-delay"@);
    let most = value_of(f, "max-restarts"@);
    match policy(value_of(f, "restart"@)) {
        None => Err(ErrorView::Wrong("restart"@)),
        Some(restart) => if restart == RESTART_NEVER && (delay is Some || most is Some) {
            Err(ErrorView::NoPolicy)
        } else {
            let down = match delay {
                None => Some(
                    if restart == RESTART_NEVER {
                        (0, 0)
                    } else {
                        (RESTART_DELAY_NS, RESTART_DELAY_NS)
                    },
                ),
                Some(n) => times(n),
            };
            match down {
                None => Err(ErrorView::Wrong("restart-delay"@)),
                Some((down_lo, down_hi)) => match limit(most) {
                    None => Err(ErrorView::Wrong("max-restarts"@)),
                    Some(left) => match crashes(value_of(f, "crash"@)) {
                        Err(e) => Err(e),
                        Ok((lo, hi, n)) => Ok(
                            Faults {
                                restart,
                                restart_delay_lo_ns: down_lo,
                                restart_delay_hi_ns: down_hi,
                                restarts_left: if restart == RESTART_NEVER {
                                    0
                                } else {
                                    left
                                },
                                crash_lo_ns: lo,
                                crash_hi_ns: hi,
                                crashes_left: n,
                            },
                        ),
                    },
                },
            }
        },
    }
}

fn crashes_of(n: Option<&Node>) -> (r: Result<(u64, u64, u32), Error>)
    ensures
        match r {
            Ok(c) => Ok(c),
            Err(e) => Err(e@),
        } == crashes(
            match n {
                Some(n) => Some(*n),
                None => None,
            },
        ),
        r matches Ok((lo, hi, _)) ==> lo <= hi && (lo > 0 || hi == 0),
{
    let f = match n {
        None => {
            return Ok((0, 0, 0));
        },
        Some(Node::Fields(f)) => f,
        Some(_) => {
            return Err(Error::Wrong("crash".to_owned()));
        },
    };
    let known = vec!["every", "times"];
    assert(known@.map_values(|s: &str| s@) =~= seq!["every"@, "times"@]);
    match find_stray(f, &known) {
        Some(key) => {
            return Err(Error::Unknown(key, "every, times"));
        },
        None => {},
    }
    let every = match get(f, "every") {
        Some(n) => n,
        None => {
            return Err(Error::Missing("every".to_owned()));
        },
    };
    let (lo, hi) = match times_of(every) {
        Some(t) => t,
        None => {
            return Err(Error::Wrong("every".to_owned()));
        },
    };
    match limit_of(get(f, "times")) {
        Some(n) => Ok((lo, hi, n)),
        None => Err(Error::Wrong("times".to_owned())),
    }
}

fn faults_of(f: &Vec<(String, Node)>) -> (r: Result<Faults, Error>)
    ensures
        match r {
            Ok(c) => Ok(c),
            Err(e) => Err(e@),
        } == faults(f@),
        r matches Ok(c) ==> c.wf(),
{
    let delay = get(f, "restart-delay");
    let most = get(f, "max-restarts");
    let restart: u8 = match policy_of(get(f, "restart")) {
        Some(p) => p,
        None => {
            return Err(Error::Wrong("restart".to_owned()));
        },
    };
    if restart == RESTART_NEVER && (delay.is_some() || most.is_some()) {
        return Err(Error::NoPolicy);
    }
    let (down_lo, down_hi): (u64, u64) = match delay {
        None => if restart == RESTART_NEVER {
            (0, 0)
        } else {
            (RESTART_DELAY_NS, RESTART_DELAY_NS)
        },
        Some(n) => match times_of(n) {
            Some(t) => t,
            None => {
                return Err(Error::Wrong("restart-delay".to_owned()));
            },
        },
    };
    let left: u32 = match limit_of(most) {
        Some(n) => n,
        None => {
            return Err(Error::Wrong("max-restarts".to_owned()));
        },
    };
    match crashes_of(get(f, "crash")) {
        Err(e) => Err(e),
        Ok((lo, hi, n)) => Ok(
            Faults {
                restart,
                restart_delay_lo_ns: down_lo,
                restart_delay_hi_ns: down_hi,
                restarts_left: if restart == RESTART_NEVER {
                    0
                } else {
                    left
                },
                crash_lo_ns: lo,
                crash_hi_ns: hi,
                crashes_left: n,
            },
        ),
    }
}

/// Whether a switch is on; off where it is not there
pub open spec fn flag(n: Option<Node>) -> Option<bool> {
    match n {
        None => Some(false),
        Some(Node::Bool(b)) => Some(b),
        Some(_) => None,
    }
}

/// A process written as a map
pub open spec fn full_process(f: Seq<(String, Node)>, host: u32) -> Result<ProcessView, ErrorView> {
    match stray(f, process_keys()) {
        Some(key) => Err(ErrorView::Unknown(key, "argv, env, daemon, restart, restart-delay, max-restarts, crash"@)),
        None => match value_of(f, "argv"@) {
            None => Err(ErrorView::Missing("argv"@)),
            Some(Node::List(v)) => match all_scalars(v@) {
                None => Err(ErrorView::Wrong("argv"@)),
                Some(argv) => match environment(value_of(f, "env"@)) {
                    None => Err(ErrorView::Wrong("env"@)),
                    Some(env) => match flag(value_of(f, "daemon"@)) {
                        None => Err(ErrorView::Wrong("daemon"@)),
                        Some(daemon) => match faults(f) {
                            Err(e) => Err(e),
                            Ok(faults) => Ok(ProcessView { host, argv, env, daemon, faults }),
                        },
                    },
                },
            },
            Some(_) => Err(ErrorView::Wrong("argv"@)),
        },
    }
}

pub open spec fn process_keys() -> Seq<Seq<char>> {
    seq![
        "argv"@,
        "env"@,
        "daemon"@,
        "restart"@,
        "restart-delay"@,
        "max-restarts"@,
        "crash"@,
    ]
}

/// A process with nothing but its arguments
pub open spec fn plain_process(host: u32, argv: Seq<Seq<char>>) -> ProcessView {
    ProcessView { host, argv, env: Seq::empty(), daemon: false, faults: Faults::none() }
}

/// A process of host number `host`, which is called `name`: a line split on
/// white space, a list of arguments, or a map
pub open spec fn process(n: Node, host: u32, name: Seq<char>) -> Result<ProcessView, ErrorView> {
    let p = match n {
        Node::Text(line) => Ok(plain_process(host, words::words_of(line@))),
        Node::List(v) => match all_scalars(v@) {
            Some(argv) => Ok(plain_process(host, argv)),
            None => Err(ErrorView::Wrong("processes"@)),
        },
        Node::Fields(f) => full_process(f@, host),
        _ => Err(ErrorView::Wrong("processes"@)),
    };
    match p {
        Ok(p) if p.argv.len() == 0 => Err(ErrorView::NoProgram(name)),
        _ => p,
    }
}

fn full_process_of(f: &Vec<(String, Node)>, host: u32) -> (r: Result<Process, Error>)
    ensures
        seen(r) == full_process(f@, host),
        r matches Ok(p) ==> p.faults.wf(),
{
    let known = vec![
        "argv",
        "env",
        "daemon",
        "restart",
        "restart-delay",
        "max-restarts",
        "crash",
    ];
    assert(known@.map_values(|s: &str| s@) =~= process_keys());
    match find_stray(f, &known) {
        Some(key) => {
            return Err(Error::Unknown(key, "argv, env, daemon, restart, restart-delay, max-restarts, crash"));
        },
        None => {},
    }
    let argv = match get(f, "argv") {
        None => {
            return Err(Error::Missing("argv".to_owned()));
        },
        Some(Node::List(v)) => match scalars_in(v) {
            Some(argv) => argv,
            None => {
                return Err(Error::Wrong("argv".to_owned()));
            },
        },
        Some(_) => {
            return Err(Error::Wrong("argv".to_owned()));
        },
    };
    let env = match env_of(get(f, "env")) {
        Some(env) => env,
        None => {
            return Err(Error::Wrong("env".to_owned()));
        },
    };
    let daemon: bool = match get(f, "daemon") {
        None => false,
        Some(Node::Bool(b)) => *b,
        Some(_) => {
            return Err(Error::Wrong("daemon".to_owned()));
        },
    };
    match faults_of(f) {
        Err(e) => Err(e),
        Ok(faults) => Ok(Process { host, argv, env, daemon, faults }),
    }
}

fn process_of(n: &Node, host: u32, name: &String) -> (r: Result<Process, Error>)
    ensures
        seen(r) == process(*n, host, name@),
        r matches Ok(p) ==> p.faults.wf(),
{
    let none: Vec<(String, String)> = Vec::new();
    assert(fields::pairs(none@) =~= Seq::<(Seq<char>, Seq<char>)>::empty());
    let p = match n {
        Node::Text(line) => {
            let argv = words(&chars_of(line.as_str()));
            Process { host, argv, env: none, daemon: false, faults: Faults::default() }
        },
        Node::List(v) => match scalars_in(v) {
            Some(argv) => Process {
                host,
                argv,
                env: none,
                daemon: false,
                faults: Faults::default(),
            },
            None => {
                return Err(Error::Wrong("processes".to_owned()));
            },
        },
        Node::Fields(f) => match full_process_of(f, host) {
            Ok(p) => p,
            Err(e) => {
                return Err(e);
            },
        },
        _ => {
            return Err(Error::Wrong("processes".to_owned()));
        },
    };
    if p.argv.len() == 0 {
        return Err(Error::NoProgram(name.clone()));
    }
    Ok(p)
}

/// A host's name is also the name of its directory.
pub open spec fn valid_name(s: Seq<char>) -> bool {
    &&& 0 < s.len() <= 63
    &&& s[0] != '.'
    &&& forall|i: int| 0 <= i < s.len() ==> name_char(#[trigger] s[i])
}

pub open spec fn name_char(c: char) -> bool {
    'a' <= c <= 'z' || 'A' <= c <= 'Z' || '0' <= c <= '9' || c == '-' || c == '.'
}

/// A host's name is also the name of its directory.
pub fn valid_host_name(name: &str) -> (r: bool)
    ensures
        r == valid_name(name@),
{
    let s = chars_of(name);
    if s.len() == 0 || s.len() > 63 || s[0] == '.' {
        return false;
    }
    let mut i: usize = 0;
    while i < s.len()
        invariant
            i <= s@.len(),
            s@ == name@,
            forall|k: int| 0 <= k < i ==> name_char(#[trigger] s@[k]),
        decreases s@.len() - i,
    {
        let c: char = s[i];
        if !('a' <= c && c <= 'z' || 'A' <= c && c <= 'Z' || '0' <= c && c <= '9' || c == '-' || c
            == '.') {
            assert(!name_char(s@[i as int]));
            return false;
        }
        i += 1;
    }
    true
}

/// The first `n` processes of a list
pub open spec fn processes(v: Seq<Node>, host: u32, name: Seq<char>, n: int) -> Result<
    Seq<ProcessView>,
    ErrorView,
>
    decreases n,
{
    if n <= 0 {
        Ok(Seq::empty())
    } else {
        match processes(v, host, name, n - 1) {
            Err(e) => Err(e),
            Ok(s) => match process(v[n - 1], host, name) {
                Ok(p) => Ok(s.push(p)),
                Err(e) => Err(e),
            },
        }
    }
}

proof fn lemma_processes_fail(v: Seq<Node>, host: u32, name: Seq<char>, n: int, m: int)
    requires
        n <= m,
        processes(v, host, name, n) is Err,
    ensures
        processes(v, host, name, m) == processes(v, host, name, n),
    decreases m - n,
{
    if n < m {
        lemma_processes_fail(v, host, name, n, m - 1);
    }
}

/// A host and its processes, which is host number `index`
pub open spec fn host(n: Node, index: u32) -> Result<(HostView, Seq<ProcessView>), ErrorView> {
    match n {
        Node::Fields(f) => match stray(f@, seq!["name"@, "files"@, "processes"@]) {
            Some(key) => Err(ErrorView::Unknown(key, "name, files, processes"@)),
            None => match value_of(f@, "name"@) {
                None => Err(ErrorView::Missing("name"@)),
                Some(Node::Text(name)) => match text_list(value_of(f@, "files"@)) {
                    None => Err(ErrorView::Wrong("files"@)),
                    Some(files) => if !valid_name(name@) {
                        Err(ErrorView::HostName(name@))
                    } else {
                        let h = HostView { name: name@, files };
                        match value_of(f@, "processes"@) {
                            None => Ok((h, Seq::empty())),
                            Some(Node::List(v)) => match processes(
                                v@,
                                index,
                                name@,
                                v@.len() as int,
                            ) {
                                Ok(p) => Ok((h, p)),
                                Err(e) => Err(e),
                            },
                            Some(_) => Err(ErrorView::Wrong("processes"@)),
                        }
                    },
                },
                Some(_) => Err(ErrorView::Wrong("name"@)),
            },
        },
        _ => Err(ErrorView::Wrong("hosts"@)),
    }
}

fn processes_of(v: &Vec<Node>, host: u32, name: &String) -> (r: Result<Vec<Process>, Error>)
    ensures
        match r {
            Ok(p) => Ok(p@.map_values(|p: Process| p@)),
            Err(e) => Err(e@),
        } == processes(v@, host, name@, v@.len() as int),
        r matches Ok(p) ==> forall|i: int| 0 <= i < p@.len() ==> (#[trigger] p@[i]).faults.wf(),
{
    let mut out: Vec<Process> = Vec::new();
    let mut i: usize = 0;
    assert(out@.map_values(|p: Process| p@) =~= Seq::<ProcessView>::empty());
    while i < v.len()
        invariant
            i <= v@.len(),
            processes(v@, host, name@, i as int) == Ok::<Seq<ProcessView>, ErrorView>(
                out@.map_values(|p: Process| p@),
            ),
            forall|k: int| 0 <= k < out@.len() ==> (#[trigger] out@[k]).faults.wf(),
        decreases v@.len() - i,
    {
        match process_of(&v[i], host, name) {
            Ok(p) => {
                let ghost was = out@;
                out.push(p);
                assert(out@.map_values(|p: Process| p@) =~= was.map_values(
                    |p: Process| p@,
                ).push(p@));
            },
            Err(e) => {
                proof {
                    lemma_processes_fail(v@, host, name@, i + 1, v@.len() as int);
                }
                return Err(e);
            },
        }
        i += 1;
    }
    Ok(out)
}

fn host_of(n: &Node, index: u32) -> (r: Result<(Host, Vec<Process>), Error>)
    ensures
        match r {
            Ok((h, p)) => Ok((h@, p@.map_values(|p: Process| p@))),
            Err(e) => Err(e@),
        } == host(*n, index),
        r matches Ok((_, p)) ==> forall|i: int|
            0 <= i < p@.len() ==> (#[trigger] p@[i]).faults.wf(),
{
    let f = match n {
        Node::Fields(f) => f,
        _ => {
            return Err(Error::Wrong("hosts".to_owned()));
        },
    };
    let known = vec!["name", "files", "processes"];
    assert(known@.map_values(|s: &str| s@) =~= seq!["name"@, "files"@, "processes"@]);
    match find_stray(f, &known) {
        Some(key) => {
            return Err(Error::Unknown(key, "name, files, processes"));
        },
        None => {},
    }
    let name = match get(f, "name") {
        None => {
            return Err(Error::Missing("name".to_owned()));
        },
        Some(Node::Text(s)) => s.clone(),
        Some(_) => {
            return Err(Error::Wrong("name".to_owned()));
        },
    };
    let files = match list_of_texts(get(f, "files")) {
        Some(files) => files,
        None => {
            return Err(Error::Wrong("files".to_owned()));
        },
    };
    if !valid_host_name(name.as_str()) {
        return Err(Error::HostName(name));
    }
    let procs = match get(f, "processes") {
        None => {
            let none: Vec<Process> = Vec::new();
            assert(none@.map_values(|p: Process| p@) =~= Seq::<ProcessView>::empty());
            none
        },
        Some(Node::List(v)) => match processes_of(v, index, &name) {
            Ok(p) => p,
            Err(e) => {
                return Err(e);
            },
        },
        Some(_) => {
            return Err(Error::Wrong("processes".to_owned()));
        },
    };
    Ok((Host { name, files }, procs))
}

/// A host of that name was declared.
pub open spec fn declared(hosts: Seq<HostView>, name: Seq<char>) -> bool {
    exists|i: int| 0 <= i < hosts.len() && (#[trigger] hosts[i]).name == name
}

/// The first `n` hosts of a list, and their processes in file order
pub open spec fn hosts(v: Seq<Node>, n: int) -> Result<
    (Seq<HostView>, Seq<ProcessView>),
    ErrorView,
>
    decreases n,
{
    if n <= 0 {
        Ok((Seq::empty(), Seq::empty()))
    } else {
        match hosts(v, n - 1) {
            Err(e) => Err(e),
            Ok((hs, ps)) => match host(v[n - 1], hs.len() as u32) {
                Err(e) => Err(e),
                Ok((h, p)) => if declared(hs, h.name) {
                    Err(ErrorView::Twice(h.name))
                } else {
                    Ok((hs.push(h), ps + p))
                },
            },
        }
    }
}

proof fn lemma_hosts_fail(v: Seq<Node>, n: int, m: int)
    requires
        n <= m,
        hosts(v, n) is Err,
    ensures
        hosts(v, m) == hosts(v, n),
    decreases m - n,
{
    if n < m {
        lemma_hosts_fail(v, n, m - 1);
    }
}

fn hosts_of(v: &Vec<Node>) -> (r: Result<(Vec<Host>, Vec<Process>), Error>)
    ensures
        match r {
            Ok((h, p)) => Ok((h@.map_values(|h: Host| h@), p@.map_values(|p: Process| p@))),
            Err(e) => Err(e@),
        } == hosts(v@, v@.len() as int),
        r matches Ok((_, p)) ==> forall|i: int|
            0 <= i < p@.len() ==> (#[trigger] p@[i]).faults.wf(),
{
    let mut hs: Vec<Host> = Vec::new();
    let mut ps: Vec<Process> = Vec::new();
    let mut i: usize = 0;
    assert(hs@.map_values(|h: Host| h@) =~= Seq::<HostView>::empty());
    assert(ps@.map_values(|p: Process| p@) =~= Seq::<ProcessView>::empty());
    while i < v.len()
        invariant
            i <= v@.len(),
            hosts(v@, i as int) == Ok::<(Seq<HostView>, Seq<ProcessView>), ErrorView>(
                (hs@.map_values(|h: Host| h@), ps@.map_values(|p: Process| p@)),
            ),
            forall|k: int| 0 <= k < ps@.len() ==> (#[trigger] ps@[k]).faults.wf(),
        decreases v@.len() - i,
    {
        let ghost seen_hosts = hs@.map_values(|h: Host| h@);
        match host_of(&v[i], hs.len() as u32) {
            Err(e) => {
                proof {
                    lemma_hosts_fail(v@, i + 1, v@.len() as int);
                }
                return Err(e);
            },
            Ok((h, p)) => {
                let mut k: usize = 0;
                while k < hs.len()
                    invariant
                        k <= hs@.len(),
                        i < v@.len(),
                        seen_hosts == hs@.map_values(|h: Host| h@),
                        hosts(v@, i as int) == Ok::<(Seq<HostView>, Seq<ProcessView>), ErrorView>(
                            (seen_hosts, ps@.map_values(|p: Process| p@)),
                        ),
                        host(v@[i as int], seen_hosts.len() as u32) == Ok::<
                            (HostView, Seq<ProcessView>),
                            ErrorView,
                        >((h@, p@.map_values(|p: Process| p@))),
                        forall|j: int| 0 <= j < k ==> (#[trigger] seen_hosts[j]).name != h.name@,
                    decreases hs@.len() - k,
                {
                    if text::same_text(hs[k].name.as_str(), h.name.as_str()) {
                        proof {
                            assert(seen_hosts[k as int].name == h.name@);
                            lemma_hosts_fail(v@, i + 1, v@.len() as int);
                        }
                        return Err(Error::Twice(h.name));
                    }
                    k += 1;
                }
                let ghost was = ps@;
                let mut p = p;
                let ghost more = p@;
                ps.append(&mut p);
                hs.push(h);
                proof {
                    assert(hs@.map_values(|h: Host| h@) =~= seen_hosts.push(h@));
                    assert(ps@.map_values(|p: Process| p@) =~= was.map_values(|p: Process| p@)
                        + more.map_values(|p: Process| p@));
                }
            },
        }
        i += 1;
    }
    Ok((hs, ps))
}

/// A scalar setting, if it is there and is one
pub open spec fn setting(n: Option<Node>) -> Option<Option<Seq<char>>> {
    match n {
        None => Some(None),
        Some(n) => match scalar(n) {
            Some(s) => Some(Some(s)),
            None => None,
        },
    }
}

fn setting_of(n: Option<&Node>) -> (r: Option<Option<String>>)
    ensures
        match r {
            Some(s) => Some(maybe(s)),
            None => None,
        } == setting(
            match n {
                Some(n) => Some(*n),
                None => None,
            },
        ),
{
    match n {
        None => Some(None),
        Some(n) => match scalar_text(n) {
            Some(s) => Some(Some(s)),
            None => None,
        },
    }
}

/// A whole number of 64 bits, if it is there and is one
pub open spec fn number(n: Option<Node>) -> Option<Option<u64>> {
    match n {
        None => Some(None),
        Some(Node::Int(i)) => if i >= 0 {
            Some(Some(i as u64))
        } else {
            None
        },
        Some(Node::Big(u, _)) => Some(Some(u)),
        Some(_) => None,
    }
}

/// A text, if it is there and is one
pub open spec fn only_text(n: Option<Node>) -> Option<Option<Seq<char>>> {
    match n {
        None => Some(None),
        Some(Node::Text(s)) => Some(Some(s@)),
        Some(_) => None,
    }
}

/// Whether the network beyond the virtual one is there
pub open spec fn outside(n: Option<Node>) -> Option<bool> {
    match n {
        None => Some(false),
        Some(Node::Text(s)) => if s@ == "refuse"@ {
            Some(false)
        } else if s@ == "allow"@ {
            Some(true)
        } else {
            None
        },
        Some(_) => None,
    }
}

pub open spec fn run_keys() -> Seq<Seq<char>> {
    seq![
        "seed"@,
        "quantum"@,
        "mem-hook-rate"@,
        "net-latency"@,
        "switch-cost"@,
        "heap-size"@,
        "stop-after"@,
        "wall-limit"@,
        "outside-network"@,
        "env"@,
        "pass-env"@,
        "allow"@,
        "hosts"@,
    ]
}

/// The first of the settings that is not what it must be
pub open spec fn bad_setting(f: Seq<(String, Node)>) -> Option<Seq<char>> {
    if number(value_of(f, "seed"@)) is None {
        Some("seed"@)
    } else if only_text(value_of(f, "quantum"@)) is None {
        Some("quantum"@)
    } else if setting(value_of(f, "mem-hook-rate"@)) is None {
        Some("mem-hook-rate"@)
    } else if setting(value_of(f, "net-latency"@)) is None {
        Some("net-latency"@)
    } else if setting(value_of(f, "switch-cost"@)) is None {
        Some("switch-cost"@)
    } else if setting(value_of(f, "heap-size"@)) is None {
        Some("heap-size"@)
    } else if setting(value_of(f, "stop-after"@)) is None {
        Some("stop-after"@)
    } else if setting(value_of(f, "wall-limit"@)) is None {
        Some("wall-limit"@)
    } else if outside(value_of(f, "outside-network"@)) is None {
        Some("outside-network"@)
    } else if environment(value_of(f, "env"@)) is None {
        Some("env"@)
    } else if text_list(value_of(f, "pass-env"@)) is None {
        Some("pass-env"@)
    } else if text_list(value_of(f, "allow"@)) is None {
        Some("allow"@)
    } else {
        None
    }
}

/// The keys of a run file, as they are told
pub const RUN_KEYS: &'static str = "seed, quantum, mem-hook-rate, net-latency, switch-cost, heap-size, stop-after, wall-limit, outside-network, env, pass-env, allow, hosts";

/// What a run file says
pub open spec fn run(doc: Node) -> Result<ManifestView, ErrorView> {
    match doc {
        Node::Fields(f) => match stray(f@, run_keys()) {
            Some(key) => Err(ErrorView::Unknown(key, RUN_KEYS@)),
            None => match bad_setting(f@) {
                Some(key) => Err(ErrorView::Wrong(key)),
                None => match value_of(f@, "hosts"@) {
                    None => Err(ErrorView::Missing("hosts"@)),
                    Some(Node::List(v)) => match hosts(v@, v@.len() as int) {
                        Err(e) => Err(e),
                        Ok((hosts, processes)) => if processes.len() == 0 {
                            Err(ErrorView::NoProcesses)
                        } else {
                            Ok(
                                ManifestView {
                                    hosts,
                                    processes,
                                    seed: number(value_of(f@, "seed"@))->Some_0,
                                    quantum: only_text(value_of(f@, "quantum"@))->Some_0,
                                    mem_hook_rate: setting(
                                        value_of(f@, "mem-hook-rate"@),
                                    )->Some_0,
                                    net_latency: setting(value_of(f@, "net-latency"@))->Some_0,
                                    switch_cost: setting(value_of(f@, "switch-cost"@))->Some_0,
                                    heap_size: setting(value_of(f@, "heap-size"@))->Some_0,
                                    stop_after: setting(value_of(f@, "stop-after"@))->Some_0,
                                    wall_limit: setting(value_of(f@, "wall-limit"@))->Some_0,
                                    outside_network: outside(
                                        value_of(f@, "outside-network"@),
                                    )->Some_0,
                                    env: environment(value_of(f@, "env"@))->Some_0,
                                    pass_env: text_list(value_of(f@, "pass-env"@))->Some_0,
                                    allow: text_list(value_of(f@, "allow"@))->Some_0,
                                },
                            )
                        },
                    },
                    Some(_) => Err(ErrorView::Wrong("hosts"@)),
                },
            },
        },
        _ => Err(ErrorView::Wrong("run file"@)),
    }
}

fn wrong<T>(key: &str) -> (r: Result<T, Error>)
    ensures
        r matches Err(e) && e@ == ErrorView::Wrong(key@),
{
    Err(Error::Wrong(key.to_owned()))
}

/// The settings of a run file whose keys are known
fn settings_of(f: &Vec<(String, Node)>, hosts: Vec<Host>, processes: Vec<Process>) -> (r: Result<
    Manifest,
    Error,
>)
    ensures
        match bad_setting(f@) {
            Some(key) => r matches Err(e) && e@ == ErrorView::Wrong(key),
            None => r matches Ok(m) && {
                &&& m.hosts == hosts
                &&& m.processes == processes
                &&& m.seed == number(value_of(f@, "seed"@))->Some_0
                &&& m@.quantum == only_text(value_of(f@, "quantum"@))->Some_0
                &&& m@.mem_hook_rate == setting(value_of(f@, "mem-hook-rate"@))->Some_0
                &&& m@.net_latency == setting(value_of(f@, "net-latency"@))->Some_0
                &&& m@.switch_cost == setting(value_of(f@, "switch-cost"@))->Some_0
                &&& m@.heap_size == setting(value_of(f@, "heap-size"@))->Some_0
                &&& m@.stop_after == setting(value_of(f@, "stop-after"@))->Some_0
                &&& m@.wall_limit == setting(value_of(f@, "wall-limit"@))->Some_0
                &&& m.outside_network == outside(value_of(f@, "outside-network"@))->Some_0
                &&& m@.env == environment(value_of(f@, "env"@))->Some_0
                &&& m@.pass_env == text_list(value_of(f@, "pass-env"@))->Some_0
                &&& m@.allow == text_list(value_of(f@, "allow"@))->Some_0
            },
        },
{
    let seed: Option<u64> = match get(f, "seed") {
        None => None,
        Some(Node::Int(i)) => if *i >= 0 {
            Some(*i as u64)
        } else {
            return wrong("seed");
        },
        Some(Node::Big(u, _)) => Some(*u),
        Some(_) => {
            return wrong("seed");
        },
    };
    let quantum = match get(f, "quantum") {
        None => None,
        Some(Node::Text(s)) => Some(s.clone()),
        Some(_) => {
            return wrong("quantum");
        },
    };
    let mem_hook_rate = match setting_of(get(f, "mem-hook-rate")) {
        Some(s) => s,
        None => {
            return wrong("mem-hook-rate");
        },
    };
    let net_latency = match setting_of(get(f, "net-latency")) {
        Some(s) => s,
        None => {
            return wrong("net-latency");
        },
    };
    let switch_cost = match setting_of(get(f, "switch-cost")) {
        Some(s) => s,
        None => {
            return wrong("switch-cost");
        },
    };
    let heap_size = match setting_of(get(f, "heap-size")) {
        Some(s) => s,
        None => {
            return wrong("heap-size");
        },
    };
    let stop_after = match setting_of(get(f, "stop-after")) {
        Some(s) => s,
        None => {
            return wrong("stop-after");
        },
    };
    let wall_limit = match setting_of(get(f, "wall-limit")) {
        Some(s) => s,
        None => {
            return wrong("wall-limit");
        },
    };
    let outside_network: bool = match get(f, "outside-network") {
        None => false,
        Some(Node::Text(s)) => if text::same_text(s.as_str(), "refuse") {
            false
        } else if text::same_text(s.as_str(), "allow") {
            true
        } else {
            return wrong("outside-network");
        },
        Some(_) => {
            return wrong("outside-network");
        },
    };
    let env = match env_of(get(f, "env")) {
        Some(env) => env,
        None => {
            return wrong("env");
        },
    };
    let pass_env = match list_of_texts(get(f, "pass-env")) {
        Some(v) => v,
        None => {
            return wrong("pass-env");
        },
    };
    let allow = match list_of_texts(get(f, "allow")) {
        Some(v) => v,
        None => {
            return wrong("allow");
        },
    };
    Ok(
        Manifest {
            hosts,
            processes,
            seed,
            quantum,
            mem_hook_rate,
            net_latency,
            switch_cost,
            heap_size,
            stop_after,
            wall_limit,
            outside_network,
            env,
            pass_env,
            allow,
        },
    )
}

/// Read a run file off its tree of values.
pub fn parse(doc: &Node) -> (r: Result<Manifest, Error>)
    ensures
        seen(r) == run(*doc),
        r matches Ok(m) ==> forall|i: int|
            0 <= i < m.processes@.len() ==> (#[trigger] m.processes@[i]).faults.wf(),
{
    let f = match doc {
        Node::Fields(f) => f,
        _ => {
            return wrong("run file");
        },
    };
    let known = vec![
        "seed",
        "quantum",
        "mem-hook-rate",
        "net-latency",
        "switch-cost",
        "heap-size",
        "stop-after",
        "wall-limit",
        "outside-network",
        "env",
        "pass-env",
        "allow",
        "hosts",
    ];
    assert(known@.map_values(|s: &str| s@) =~= run_keys());
    match find_stray(f, &known) {
        Some(key) => {
            return Err(Error::Unknown(key, RUN_KEYS));
        },
        None => {},
    }
    let m = match settings_of(f, Vec::new(), Vec::new()) {
        Ok(m) => m,
        Err(e) => {
            return Err(e);
        },
    };
    let v = match get(f, "hosts") {
        None => {
            return Err(Error::Missing("hosts".to_owned()));
        },
        Some(Node::List(v)) => v,
        Some(_) => {
            return wrong("hosts");
        },
    };
    let (hosts, processes) = match hosts_of(v) {
        Ok(r) => r,
        Err(e) => {
            return Err(e);
        },
    };
    if processes.len() == 0 {
        return Err(Error::NoProcesses);
    }
    Ok(Manifest { hosts, processes, ..m })
}

/// Every process of a run file has a program and lives on one of the hosts,
/// and every host has a name of its own that a directory can have.
pub proof fn a_run_file_is_sound(doc: Node, i: int, j: int)
    requires
        run(doc) is Ok,
        run(doc)->Ok_0.hosts.len() <= u32::MAX,
    ensures
        ({
            let m = run(doc)->Ok_0;
            &&& m.processes.len() > 0
            &&& 0 <= i < m.processes.len() ==> m.processes[i].argv.len() > 0
                && m.processes[i].host < m.hosts.len()
            &&& 0 <= i < m.hosts.len() ==> valid_name(m.hosts[i].name)
            &&& 0 <= i < j < m.hosts.len() ==> m.hosts[i].name != m.hosts[j].name
        }),
{
    if let Node::Fields(f) = doc {
        if let Some(Node::List(v)) = value_of(f@, "hosts"@) {
            lemma_hosts_len(v@, v@.len() as int);
            lemma_hosts_sound(v@, v@.len() as int, i, j);
        }
    }
}

proof fn lemma_processes_sound(v: Seq<Node>, host: u32, name: Seq<char>, n: int, i: int)
    requires
        processes(v, host, name, n) is Ok,
    ensures
        ({
            let p = processes(v, host, name, n)->Ok_0;
            0 <= i < p.len() ==> p[i].argv.len() > 0 && p[i].host == host
        }),
    decreases n,
{
    if n > 0 {
        lemma_processes_sound(v, host, name, n - 1, i);
    }
}

proof fn lemma_hosts_len(v: Seq<Node>, n: int)
    requires
        hosts(v, n) is Ok,
        0 <= n,
    ensures
        hosts(v, n)->Ok_0.0.len() == n,
    decreases n,
{
    if n > 0 {
        lemma_hosts_len(v, n - 1);
    }
}

proof fn lemma_hosts_sound(v: Seq<Node>, n: int, i: int, j: int)
    requires
        hosts(v, n) is Ok,
        n <= u32::MAX,
    ensures
        ({
            let (hs, ps) = hosts(v, n)->Ok_0;
            &&& 0 <= i < ps.len() ==> ps[i].argv.len() > 0 && ps[i].host < hs.len()
            &&& 0 <= i < hs.len() ==> valid_name(hs[i].name)
            &&& 0 <= i < j < hs.len() ==> hs[i].name != hs[j].name
            &&& hs.len() <= n || n < 0
        }),
    decreases n,
{
    if n > 0 {
        lemma_hosts_sound(v, n - 1, i, j);
        let (hs, ps) = hosts(v, n - 1)->Ok_0;
        let (h, p) = host(v[n - 1], hs.len() as u32)->Ok_0;
        assert(!declared(hs, h.name));
        if let Node::Fields(f) = v[n - 1] {
            if let Some(Node::List(list)) = value_of(f@, "processes"@) {
                if ps.len() <= i < ps.len() + p.len() {
                    lemma_processes_sound(
                        list@,
                        hs.len() as u32,
                        h.name,
                        list@.len() as int,
                        i - ps.len(),
                    );
                }
            }
        }
    }
}

/// What a process's entry says of restarts and crashes means what it says: the
/// three policies by their names, a delay that is a tenth of a second where none
/// is given, as many restarts as given or any number, and crashes that far into
/// each life as often as given.
#[verifier::rlimit(40)]
pub proof fn restart_settings_mean_what_they_say(f: Seq<(String, Node)>)
    requires
        faults(f) is Ok,
    ensures
        ({
            let r = faults(f)->Ok_0;
            let restart = value_of(f, "restart"@);
            let delay = value_of(f, "restart-delay"@);
            let most = value_of(f, "max-restarts"@);
            let crash = value_of(f, "crash"@);
            &&& restart is None ==> r.restart == RESTART_NEVER
            &&& restart matches Some(Node::Text(s)) ==> (s@ == "always"@ <==> r.restart
                == RESTART_ALWAYS) && (s@ == "on-failure"@ <==> r.restart == RESTART_ON_FAILURE)
                && (s@ == "never"@ <==> r.restart == RESTART_NEVER)
            &&& r.restart == RESTART_NEVER ==> delay is None && most is None && r.restarts_left
                == 0
            &&& r.restart != RESTART_NEVER && delay is None ==> r.restart_delay_lo_ns == 100_000_000
                && r.restart_delay_hi_ns == 100_000_000
            &&& delay matches Some(Node::Text(s)) ==> units::span(s@) == Some(
                (r.restart_delay_lo_ns, r.restart_delay_hi_ns),
            ) && r.restart_delay_lo_ns > 0
            &&& r.restart != RESTART_NEVER && most is None ==> r.restarts_left == NO_LIMIT
            &&& most matches Some(Node::Int(n)) ==> r.restarts_left == n
            &&& crash is None ==> r.crash_hi_ns == 0 && r.crashes_left == 0
            &&& crash matches Some(Node::Fields(c)) ==> {
                &&& value_of(c@, "every"@) matches Some(Node::Text(s)) ==> units::span(s@)
                    == Some((r.crash_lo_ns, r.crash_hi_ns)) && r.crash_lo_ns > 0
                &&& value_of(c@, "times"@) matches Some(Node::Int(n)) ==> r.crashes_left == n
                &&& value_of(c@, "times"@) is None ==> r.crashes_left == NO_LIMIT
            }
        }),
{
    reveal_strlit("never");
    reveal_strlit("on-failure");
    reveal_strlit("always");
    assert("never"@.len() == 5 && "on-failure"@.len() == 10 && "always"@.len() == 6);
}

proof fn lemma_stray(f: Seq<(String, Node)>, known: Seq<Seq<char>>, i: int)
    requires
        0 <= i < f.len(),
        !known.contains(f[i].0@),
    ensures
        stray(f, known) is Some,
    decreases f.len(),
{
    if known.contains(f[0].0@) {
        assert(f.skip(1)[i - 1] == f[i]);
        lemma_stray(f.skip(1), known, i - 1);
    }
}

proof fn lemma_run_keys(key: Seq<char>)
    ensures
        run_keys().contains(key) <==> key == "seed"@ || key == "quantum"@ || key
            == "mem-hook-rate"@ || key == "net-latency"@ || key == "switch-cost"@ || key
            == "heap-size"@ || key == "stop-after"@ || key == "wall-limit"@ || key
            == "outside-network"@ || key == "env"@ || key == "pass-env"@ || key == "allow"@ || key
            == "hosts"@,
{
    let k = run_keys();
    assert(k.len() == 13);
    assert(k[0] == "seed"@ && k[1] == "quantum"@ && k[2] == "mem-hook-rate"@ && k[3]
        == "net-latency"@ && k[4] == "switch-cost"@ && k[5] == "heap-size"@ && k[6]
        == "stop-after"@ && k[7] == "wall-limit"@ && k[8] == "outside-network"@ && k[9] == "env"@
        && k[10] == "pass-env"@ && k[11] == "allow"@ && k[12] == "hosts"@);
}

/// A key that means nothing is not passed over: a run file that holds one is
/// refused.
pub proof fn an_unknown_key_is_refused(f: Vec<(String, Node)>, i: int)
    requires
        0 <= i < f@.len(),
        ({
            let key = f@[i].0@;
            &&& key != "seed"@ && key != "quantum"@ && key != "mem-hook-rate"@ && key
                != "net-latency"@ && key != "switch-cost"@ && key != "heap-size"@
            &&& key != "stop-after"@ && key != "wall-limit"@ && key != "outside-network"@ && key
                != "env"@ && key != "pass-env"@ && key != "allow"@ && key != "hosts"@
        }),
    ensures
        run(Node::Fields(f)) is Err,
{
    lemma_run_keys(f@[i].0@);
    lemma_stray(f@, run_keys(), i);
}

/// The hosts of a run file are in its order, and each host's processes follow
/// one another behind those of the hosts before it: none is left out, and none
/// is added.
pub proof fn hosts_and_processes_are_in_order(v: Seq<Node>, n: int, k: int)
    requires
        0 <= k < n <= u32::MAX,
        hosts(v, n) is Ok,
    ensures
        hosts(v, k) is Ok,
        host(v[k], k as u32) is Ok,
        ({
            let (hs, ps) = hosts(v, n)->Ok_0;
            let (h, p) = host(v[k], k as u32)->Ok_0;
            let before = hosts(v, k)->Ok_0.1.len() as int;
            &&& hs.len() == n
            &&& hs[k] == h
            &&& before + p.len() <= ps.len()
            &&& ps.subrange(before, before + p.len()) == p
            &&& k == n - 1 ==> ps.len() == before + p.len()
        }),
    decreases n,
{
    lemma_hosts_len(v, n);
    lemma_hosts_len(v, n - 1);
    let (hs, ps) = hosts(v, n)->Ok_0;
    let (had, were) = hosts(v, n - 1)->Ok_0;
    if k < n - 1 {
        hosts_and_processes_are_in_order(v, n - 1, k);
        let (h, p) = host(v[k], k as u32)->Ok_0;
        let before = hosts(v, k)->Ok_0.1.len() as int;
        assert(ps.subrange(before, before + p.len()) =~= were.subrange(before, before + p.len()));
    } else {
        let (h, p) = host(v[k], k as u32)->Ok_0;
        assert(ps.subrange(were.len() as int, were.len() as int + p.len()) =~= p);
    }
}

/// A line of text is a process with its words as arguments, a list one with its
/// values.
pub proof fn a_process_is_what_is_written(line: String, v: Vec<Node>, host: u32, name: Seq<char>)
    ensures
        ({
            let words = words::words_of(line@);
            &&& words.len() > 0 ==> process(Node::Text(line), host, name) == Ok::<
                ProcessView,
                ErrorView,
            >(plain_process(host, words))
            &&& words.len() == 0 ==> process(Node::Text(line), host, name) == Err::<
                ProcessView,
                ErrorView,
            >(ErrorView::NoProgram(name))
        }),
        process(Node::List(v), host, name) matches Ok(p) ==> p.argv.len() == v@.len() && p.host
            == host && !p.daemon && p.faults.restart == RESTART_NEVER && p.faults.crash_hi_ns == 0
            && (forall|i: int|
            0 <= i < v@.len() ==> (#[trigger] v@[i] matches Node::Text(s) ==> p.argv[i] == s@)),
{
    if let Some(argv) = all_scalars(v@) {
        lemma_scalars(v@);
    }
}

proof fn lemma_scalars(v: Seq<Node>)
    requires
        all_scalars(v) is Some,
    ensures
        all_scalars(v).unwrap().len() == v.len(),
        forall|i: int|
            0 <= i < v.len() ==> (#[trigger] v[i] matches Node::Text(s) ==> all_scalars(
                v,
            ).unwrap()[i] == s@),
    decreases v.len(),
{
    if v.len() > 0 {
        lemma_scalars(v.drop_last());
        let all = all_scalars(v).unwrap();
        let before = all_scalars(v.drop_last()).unwrap();
        assert forall|i: int| 0 <= i < v.len() implies (#[trigger] v[i] matches Node::Text(s)
            ==> all[i] == s@) by {
            if i < v.len() - 1 {
                assert(v.drop_last()[i] == v[i]);
                assert(all[i] == before[i]);
            }
        }
    }
}

} // verus!
