//! The settings of a run: the command line, laid over the run file.

use vstd::prelude::*;
use crate::manifest::{Manifest, ManifestView};
use crate::rewrite;
use crate::rewrite::{parse_rate, Options};
use crate::shared::DEFAULT_SWITCH_NS;
use crate::text;
use crate::text::{chars_of, parse_unsigned, push_decimal, same_text, starts_with};
use crate::units;
use crate::units::{parse_duration_ns, parse_size};
use crate::words;
use crate::words::split_once_text;

verus! {

/// Hook events per quantum
pub const DEFAULT_QUANTUM: (u32, u32) = (1000, 10000);

/// Address space of each guest's heap: 32 GB
pub const DEFAULT_HEAP: u64 = 0x8_0000_0000;

/// Which settings the command line gave, so that a run file cannot override
/// them
#[derive(Debug, Clone, Copy, PartialEq, Eq, Structural)]
pub struct Given {
    pub seed: bool,
    pub mem_hook_rate: bool,
    pub quantum: bool,
    pub net_latency: bool,
    pub switch_cost: bool,
    pub heap_size: bool,
    pub wall_limit: bool,
    pub stop_after: bool,
    pub reseed: bool,
    pub runs: bool,
}

#[derive(Debug, Clone, Copy)]
pub struct Settings {
    pub given: Given,
    pub opts: Options,
    pub quantum: (u32, u32),
    pub supervisor: bool,
    pub capture: bool,
    /// Each guest's stderr to a file too; otherwise it stays ours, where
    /// the supervisor's own messages about a guest are expected
    pub capture_stderr: bool,
    pub net_latency_ns: u64,
    pub switch_ns: u64,
    pub heap_size: u64,
    /// Virtual time at which the run is over (0: when its processes are)
    pub stop_after_ns: u64,
    /// Real time after which it is over (0: never)
    pub wall_limit_ms: u64,
    pub reseed_at: Option<u64>,
    pub reseed: u64,
    pub jobs: u32,
    pub resolution_ns: u64,
    pub disable_aslr: bool,
    pub native: bool,
    pub runs: u32,
}

/// A command line
pub struct Cli {
    pub settings: Settings,
    pub manifest: Option<String>,
    pub scratch: Option<String>,
    /// How many of the arguments were options
    pub options: usize,
}

pub struct CliView {
    pub settings: Settings,
    pub manifest: Option<Seq<char>>,
    pub scratch: Option<Seq<char>>,
    pub options: int,
}

impl View for Cli {
    type V = CliView;

    open spec fn view(&self) -> CliView {
        CliView {
            settings: self.settings,
            manifest: match self.manifest {
                Some(s) => Some(s@),
                None => None,
            },
            scratch: match self.scratch {
                Some(s) => Some(s@),
                None => None,
            },
            options: self.options as int,
        }
    }
}

/// An argument as text. One that is no text is not exact.
pub struct Arg {
    pub text: String,
    pub exact: bool,
}

/// What is wrong with a setting
#[derive(Debug)]
pub enum Error {
    NeedsValue(String),
    Unknown(String),
    Seed,
    Rate(String),
    Quantum(String),
    Duration(String),
    SwitchCost(String),
    HeapSize(String),
    StopAfter(String),
    Time(String),
    Jobs,
    Reseed,
    Runs,
    ReseedWhen,
}

pub enum ErrorView {
    NeedsValue(Seq<char>),
    Unknown(Seq<char>),
    Seed,
    Rate(Seq<char>),
    Quantum(Seq<char>),
    Duration(Seq<char>),
    SwitchCost(Seq<char>),
    HeapSize(Seq<char>),
    StopAfter(Seq<char>),
    Time(Seq<char>),
    Jobs,
    Reseed,
    Runs,
    ReseedWhen,
}

impl View for Error {
    type V = ErrorView;

    open spec fn view(&self) -> ErrorView {
        match *self {
            Error::NeedsValue(s) => ErrorView::NeedsValue(s@),
            Error::Unknown(s) => ErrorView::Unknown(s@),
            Error::Seed => ErrorView::Seed,
            Error::Rate(s) => ErrorView::Rate(s@),
            Error::Quantum(s) => ErrorView::Quantum(s@),
            Error::Duration(s) => ErrorView::Duration(s@),
            Error::SwitchCost(s) => ErrorView::SwitchCost(s@),
            Error::HeapSize(s) => ErrorView::HeapSize(s@),
            Error::StopAfter(s) => ErrorView::StopAfter(s@),
            Error::Time(s) => ErrorView::Time(s@),
            Error::Jobs => ErrorView::Jobs,
            Error::Reseed => ErrorView::Reseed,
            Error::Runs => ErrorView::Runs,
            Error::ReseedWhen => ErrorView::ReseedWhen,
        }
    }
}

impl ErrorView {
    /// What is told of it
    pub open spec fn told(self) -> Seq<char> {
        match self {
            ErrorView::NeedsValue(s) => s + " needs a value"@,
            ErrorView::Unknown(s) => "unknown option "@ + s,
            ErrorView::Seed => "bad seed"@,
            ErrorView::Rate(s) => "bad rate "@ + s,
            ErrorView::Quantum(s) => "bad quantum "@ + s,
            ErrorView::Duration(s) => "bad duration "@ + s,
            ErrorView::SwitchCost(s) => "bad switch cost "@ + s + " (at least 1us)"@,
            ErrorView::HeapSize(s) => "bad heap size "@ + s,
            ErrorView::StopAfter(s) => "bad stop-after time "@ + s,
            ErrorView::Time(s) => "bad time "@ + s,
            ErrorView::Jobs => "bad job count"@,
            ErrorView::Reseed => "bad reseed value"@,
            ErrorView::Runs => "bad --runs"@,
            ErrorView::ReseedWhen => "--reseed needs --reseed-at: from when?"@,
        }
    }
}

fn told(before: &str, what: &str, behind: &str) -> (r: String)
    ensures
        r@ == before@ + what@ + behind@,
{
    let mut out = String::new();
    out.append(before);
    out.append(what);
    out.append(behind);
    assert(out@ =~= before@ + what@ + behind@);
    out
}

impl Error {
    /// What to tell of it
    pub fn message(&self) -> (r: String)
        ensures
            r@ == self@.told(),
    {
        proof {
            reveal_strlit("");
        }
        let r = match self {
            Error::NeedsValue(s) => told("", s.as_str(), " needs a value"),
            Error::Unknown(s) => told("unknown option ", s.as_str(), ""),
            Error::Seed => told("bad seed", "", ""),
            Error::Rate(s) => told("bad rate ", s.as_str(), ""),
            Error::Quantum(s) => told("bad quantum ", s.as_str(), ""),
            Error::Duration(s) => told("bad duration ", s.as_str(), ""),
            Error::SwitchCost(s) => told("bad switch cost ", s.as_str(), " (at least 1us)"),
            Error::HeapSize(s) => told("bad heap size ", s.as_str(), ""),
            Error::StopAfter(s) => told("bad stop-after time ", s.as_str(), ""),
            Error::Time(s) => told("bad time ", s.as_str(), ""),
            Error::Jobs => told("bad job count", "", ""),
            Error::Reseed => told("bad reseed value", "", ""),
            Error::Runs => told("bad --runs", "", ""),
            Error::ReseedWhen => told("--reseed needs --reseed-at: from when?", "", ""),
        };
        assert(r@ =~= self@.told());
        r
    }
}

/// `LO..HI`, both at least one and the first not the larger
pub open spec fn quantum(s: Seq<char>) -> Option<(u32, u32)> {
    match words::split_at_text(s, ".."@) {
        Some((a, b)) => match (
            text::unsigned_value(a, 10, u32::MAX as nat),
            text::unsigned_value(b, 10, u32::MAX as nat),
        ) {
            (Some(lo), Some(hi)) => if lo >= 1 && hi >= lo {
                Some((lo as u32, hi as u32))
            } else {
                None
            },
            _ => None,
        },
        None => None,
    }
}

pub fn parse_quantum(v: &str) -> (r: Result<(u32, u32), Error>)
    ensures
        match quantum(v@) {
            Some(q) => r == Ok::<(u32, u32), Error>(q),
            None => r matches Err(e) && e@ == ErrorView::Quantum(v@),
        },
{
    let chars = chars_of(v);
    match split_once_text(&chars, "..") {
        Some((a, b)) => match (
            parse_unsigned(&a, 10, u32::MAX as u64),
            parse_unsigned(&b, 10, u32::MAX as u64),
        ) {
            (Some(lo), Some(hi)) => if lo >= 1 && hi >= lo {
                Ok((lo as u32, hi as u32))
            } else {
                Err(Error::Quantum(v.to_owned()))
            },
            _ => Err(Error::Quantum(v.to_owned())),
        },
        None => Err(Error::Quantum(v.to_owned())),
    }
}

/// At least a microsecond
pub open spec fn switch_cost(s: Seq<char>) -> Option<u64> {
    match units::duration(s) {
        Some(ns) => if ns >= 1_000 {
            Some(ns)
        } else {
            None
        },
        None => None,
    }
}

/// At least a microsecond: a lone thread that computes without reading the
/// clock moves it only by its hand-offs, and a sleeper's deadline must pass.
pub fn parse_switch_cost(v: &str) -> (r: Result<u64, Error>)
    ensures
        match switch_cost(v@) {
            Some(ns) => r == Ok::<u64, Error>(ns),
            None => r matches Err(e) && e@ == ErrorView::SwitchCost(v@),
        },
{
    match parse_duration_ns(v) {
        Some(ns) => if ns >= 1_000 {
            Ok(ns)
        } else {
            Err(Error::SwitchCost(v.to_owned()))
        },
        None => Err(Error::SwitchCost(v.to_owned())),
    }
}

/// Not zero
pub open spec fn stop_after(s: Seq<char>) -> Option<u64> {
    match units::duration(s) {
        Some(ns) => if ns > 0 {
            Some(ns)
        } else {
            None
        },
        None => None,
    }
}

pub fn parse_stop_after(v: &str) -> (r: Result<u64, Error>)
    ensures
        match stop_after(v@) {
            Some(ns) => r == Ok::<u64, Error>(ns),
            None => r matches Err(e) && e@ == ErrorView::StopAfter(v@),
        },
{
    match parse_duration_ns(v) {
        Some(ns) => if ns > 0 {
            Ok(ns)
        } else {
            Err(Error::StopAfter(v.to_owned()))
        },
        None => Err(Error::StopAfter(v.to_owned())),
    }
}

/// The least and the most address space of a heap: 64 MB and 4 TB
pub const HEAP_RANGE: (u64, u64) = (0x400_0000, 0x400_0000_0000);

/// A size that a heap can have
pub open spec fn heap_size_of(s: Seq<char>) -> Option<u64> {
    match units::size(s) {
        Some(n) => if HEAP_RANGE.0 <= n <= HEAP_RANGE.1 {
            Some(n)
        } else {
            None
        },
        None => None,
    }
}

pub fn parse_heap_size(v: &str) -> (r: Result<u64, Error>)
    ensures
        match heap_size_of(v@) {
            Some(n) => r == Ok::<u64, Error>(n),
            None => r matches Err(e) && e@ == ErrorView::HeapSize(v@),
        },
{
    match parse_size(v) {
        Some(n) => if HEAP_RANGE.0 <= n && n <= HEAP_RANGE.1 {
            Ok(n)
        } else {
            Err(Error::HeapSize(v.to_owned()))
        },
        None => Err(Error::HeapSize(v.to_owned())),
    }
}

impl Settings {
    /// What no option changed
    pub open spec fn start() -> Settings {
        Settings {
            given: Given {
                seed: false,
                mem_hook_rate: false,
                quantum: false,
                net_latency: false,
                switch_cost: false,
                heap_size: false,
                wall_limit: false,
                stop_after: false,
                reseed: false,
                runs: false,
            },
            opts: Options { seed: 0, mem_rate: (0, 1) },
            quantum: DEFAULT_QUANTUM,
            supervisor: true,
            capture: false,
            capture_stderr: false,
            net_latency_ns: 0,
            switch_ns: DEFAULT_SWITCH_NS,
            heap_size: DEFAULT_HEAP,
            stop_after_ns: 0,
            wall_limit_ms: 0,
            reseed_at: None,
            reseed: 0,
            jobs: 4,
            resolution_ns: 2_000_000,
            disable_aslr: true,
            native: false,
            runs: 100,
        }
    }
}

/// A number at most `max`
pub open spec fn number(s: Seq<char>, max: int) -> Option<int> {
    match text::unsigned_value(s, 10, max as nat) {
        Some(n) => Some(n as int),
        None => None,
    }
}

/// An option that takes a value, of the settings
#[verifier::opaque]
pub open spec fn with_value(s: Settings, name: Seq<char>, v: Seq<char>) -> Result<
    Settings,
    ErrorView,
> {
    if name == "--seed"@ {
        match number(v, u64::MAX as int) {
            Some(n) => Ok(
                Settings {
                    opts: Options { seed: n as u64, ..s.opts },
                    given: Given { seed: true, ..s.given },
                    ..s
                },
            ),
            None => Err(ErrorView::Seed),
        }
    } else if name == "--mem-hook-rate"@ {
        match rewrite::rate_of(v) {
            Some(mem_rate) => Ok(
                Settings {
                    opts: Options { mem_rate, ..s.opts },
                    given: Given { mem_hook_rate: true, ..s.given },
                    ..s
                },
            ),
            None => Err(ErrorView::Rate(v)),
        }
    } else if name == "--quantum"@ {
        match quantum(v) {
            Some(quantum) => Ok(
                Settings { quantum, given: Given { quantum: true, ..s.given }, ..s },
            ),
            None => Err(ErrorView::Quantum(v)),
        }
    } else if name == "--net-latency"@ {
        match units::duration(v) {
            Some(net_latency_ns) => Ok(
                Settings { net_latency_ns, given: Given { net_latency: true, ..s.given }, ..s },
            ),
            None => Err(ErrorView::Duration(v)),
        }
    } else if name == "--switch-cost"@ {
        match switch_cost(v) {
            Some(switch_ns) => Ok(
                Settings { switch_ns, given: Given { switch_cost: true, ..s.given }, ..s },
            ),
            None => Err(ErrorView::SwitchCost(v)),
        }
    } else if name == "--heap-size"@ {
        match heap_size_of(v) {
            Some(heap_size) => Ok(
                Settings { heap_size, given: Given { heap_size: true, ..s.given }, ..s },
            ),
            None => Err(ErrorView::HeapSize(v)),
        }
    } else if name == "--wall-limit"@ {
        match stop_after(v) {
            Some(ns) => Ok(
                Settings {
                    wall_limit_ms: (ns / 1_000_000) as u64,
                    given: Given { wall_limit: true, ..s.given },
                    ..s
                },
            ),
            None => Err(ErrorView::StopAfter(v)),
        }
    } else if name == "--stop-after"@ {
        match stop_after(v) {
            Some(stop_after_ns) => Ok(
                Settings { stop_after_ns, given: Given { stop_after: true, ..s.given }, ..s },
            ),
            None => Err(ErrorView::StopAfter(v)),
        }
    } else if name == "--reseed-at"@ {
        match units::duration(v) {
            Some(ns) => Ok(Settings { reseed_at: Some(ns), ..s }),
            None => Err(ErrorView::Time(v)),
        }
    } else if name == "--jobs"@ {
        match number(v, u32::MAX as int) {
            Some(n) => Ok(Settings { jobs: n as u32, ..s }),
            None => Err(ErrorView::Jobs),
        }
    } else if name == "--resolution"@ {
        match units::duration(v) {
            Some(resolution_ns) => Ok(Settings { resolution_ns, ..s }),
            None => Err(ErrorView::Duration(v)),
        }
    } else if name == "--reseed"@ {
        match number(v, u64::MAX as int) {
            Some(n) => Ok(
                Settings { reseed: n as u64, given: Given { reseed: true, ..s.given }, ..s },
            ),
            None => Err(ErrorView::Reseed),
        }
    } else {
        match number(v, u32::MAX as int) {
            Some(n) => Ok(Settings { runs: n as u32, given: Given { runs: true, ..s.given }, ..s }),
            None => Err(ErrorView::Runs),
        }
    }
}

/// An option that takes a value, other than a file or a directory
pub open spec fn takes_value(name: Seq<char>) -> bool {
    name == "--seed"@ || name == "--mem-hook-rate"@ || name == "--quantum"@ || name
        == "--net-latency"@ || name == "--switch-cost"@ || name == "--heap-size"@ || name
        == "--wall-limit"@ || name == "--stop-after"@ || name == "--reseed-at"@ || name
        == "--jobs"@ || name == "--resolution"@ || name == "--reseed"@ || name == "--runs"@
}

/// A switch of the settings
pub open spec fn switched(s: Settings, name: Seq<char>) -> Option<Settings> {
    if name == "--capture"@ {
        Some(Settings { capture: true, ..s })
    } else if name == "--capture-stderr"@ {
        Some(Settings { capture_stderr: true, ..s })
    } else if name == "--no-supervisor"@ {
        Some(Settings { supervisor: false, ..s })
    } else if name == "--aslr"@ {
        Some(Settings { disable_aslr: false, ..s })
    } else if name == "--native"@ {
        Some(Settings { native: true, ..s })
    } else {
        None
    }
}

/// The command line from argument `i` on: options, up to the first argument
/// that is none
pub open spec fn options(cli: CliView, args: Seq<Arg>, i: int) -> Result<CliView, ErrorView>
    decreases args.len() - i,
{
    let here = CliView { options: i, ..cli };
    if i < 0 || i >= args.len() || !args[i].exact {
        Ok(here)
    } else {
        let name = args[i].text@;
        let file = name == "--manifest"@ || name == "--scratch"@;
        if file || takes_value(name) {
            if i + 1 >= args.len() {
                Err(ErrorView::NeedsValue(name))
            } else {
                let v = args[i + 1].text@;
                if name == "--manifest"@ {
                    options(CliView { manifest: Some(v), ..cli }, args, i + 2)
                } else if name == "--scratch"@ {
                    options(CliView { scratch: Some(v), ..cli }, args, i + 2)
                } else {
                    match with_value(cli.settings, name, v) {
                        Ok(settings) => options(CliView { settings, ..cli }, args, i + 2),
                        Err(e) => Err(e),
                    }
                }
            }
        } else {
            match switched(cli.settings, name) {
                Some(settings) => options(CliView { settings, ..cli }, args, i + 1),
                None => if "--"@.is_prefix_of(name) {
                    Err(ErrorView::Unknown(name))
                } else {
                    Ok(here)
                },
            }
        }
    }
}

/// What a command line says
pub open spec fn command_line(args: Seq<Arg>) -> Result<CliView, ErrorView> {
    let start = CliView {
        settings: Settings::start(),
        manifest: None,
        scratch: None,
        options: 0,
    };
    match options(start, args, 0) {
        Err(e) => Err(e),
        Ok(cli) => if cli.settings.given.reseed && cli.settings.reseed_at is None {
            Err(ErrorView::ReseedWhen)
        } else {
            Ok(cli)
        },
    }
}

fn number_of(v: &str, max: u64) -> (r: Option<u64>)
    ensures
        match r {
            Some(n) => number(v@, max as int) == Some(n as int),
            None => number(v@, max as int) is None,
        },
{
    parse_unsigned(&chars_of(v), 10, max)
}

fn valued(name: &str) -> (r: bool)
    ensures
        r == takes_value(name@),
{
    same_text(name, "--seed") || same_text(name, "--mem-hook-rate") || same_text(name, "--quantum")
        || same_text(name, "--net-latency") || same_text(name, "--switch-cost") || same_text(
        name,
        "--heap-size",
    ) || same_text(name, "--wall-limit") || same_text(name, "--stop-after") || same_text(
        name,
        "--reseed-at",
    ) || same_text(name, "--jobs") || same_text(name, "--resolution") || same_text(
        name,
        "--reseed",
    ) || same_text(name, "--runs")
}

fn set_value(s: Settings, name: &str, v: &str) -> (r: Result<Settings, Error>)
    ensures
        match r {
            Ok(s) => Ok(s),
            Err(e) => Err(e@),
        } == with_value(s, name@, v@),
{
    reveal(with_value);
    if same_text(name, "--seed") {
        return match number_of(v, u64::MAX) {
            Some(n) => Ok(Settings { opts: Options { seed: n, ..s.opts }, given: Given { seed: true, ..s.given }, ..s }),
            None => Err(Error::Seed),
        };
    }
    if same_text(name, "--mem-hook-rate") {
        return match parse_rate(v) {
            Some(mem_rate) => Ok(Settings { opts: Options { mem_rate, ..s.opts }, given: Given { mem_hook_rate: true, ..s.given }, ..s }),
            None => Err(Error::Rate(v.to_owned())),
        };
    }
    if same_text(name, "--quantum") {
        return match parse_quantum(v) {
            Ok(quantum) => Ok(Settings { quantum, given: Given { quantum: true, ..s.given }, ..s }),
            Err(e) => Err(e),
        };
    }
    if same_text(name, "--net-latency") {
        return match parse_duration_ns(v) {
            Some(net_latency_ns) => Ok(Settings { net_latency_ns, given: Given { net_latency: true, ..s.given }, ..s }),
            None => Err(Error::Duration(v.to_owned())),
        };
    }
    if same_text(name, "--switch-cost") {
        return match parse_switch_cost(v) {
            Ok(switch_ns) => Ok(Settings { switch_ns, given: Given { switch_cost: true, ..s.given }, ..s }),
            Err(e) => Err(e),
        };
    }
    if same_text(name, "--heap-size") {
        return match parse_heap_size(v) {
            Ok(heap_size) => Ok(Settings { heap_size, given: Given { heap_size: true, ..s.given }, ..s }),
            Err(e) => Err(e),
        };
    }
    if same_text(name, "--wall-limit") {
        return match parse_stop_after(v) {
            Ok(ns) => Ok(Settings { wall_limit_ms: ns / 1_000_000, given: Given { wall_limit: true, ..s.given }, ..s }),
            Err(e) => Err(e),
        };
    }
    if same_text(name, "--stop-after") {
        return match parse_stop_after(v) {
            Ok(stop_after_ns) => Ok(Settings { stop_after_ns, given: Given { stop_after: true, ..s.given }, ..s }),
            Err(e) => Err(e),
        };
    }
    if same_text(name, "--reseed-at") {
        return match parse_duration_ns(v) {
            Some(ns) => Ok(Settings { reseed_at: Some(ns), ..s }),
            None => Err(Error::Time(v.to_owned())),
        };
    }
    if same_text(name, "--jobs") {
        return match number_of(v, u32::MAX as u64) {
            Some(n) => Ok(Settings { jobs: n as u32, ..s }),
            None => Err(Error::Jobs),
        };
    }
    if same_text(name, "--resolution") {
        return match parse_duration_ns(v) {
            Some(resolution_ns) => Ok(Settings { resolution_ns, ..s }),
            None => Err(Error::Duration(v.to_owned())),
        };
    }
    if same_text(name, "--reseed") {
        return match number_of(v, u64::MAX) {
            Some(n) => Ok(Settings { reseed: n, given: Given { reseed: true, ..s.given }, ..s }),
            None => Err(Error::Reseed),
        };
    }
    match number_of(v, u32::MAX as u64) {
        Some(n) => Ok(Settings { runs: n as u32, given: Given { runs: true, ..s.given }, ..s }),
        None => Err(Error::Runs),
    }
}

fn set_switch(s: Settings, name: &str) -> (r: Option<Settings>)
    ensures
        r == switched(s, name@),
{
    let mut s = s;
    if same_text(name, "--capture") {
        s.capture = true;
    } else if same_text(name, "--capture-stderr") {
        s.capture_stderr = true;
    } else if same_text(name, "--no-supervisor") {
        s.supervisor = false;
    } else if same_text(name, "--aslr") {
        s.disable_aslr = false;
    } else if same_text(name, "--native") {
        s.native = true;
    } else {
        return None;
    }
    Some(s)
}

impl Default for Settings {
    fn default() -> (r: Self)
        ensures
            r == Settings::start(),
    {
        Settings {
            given: Given {
                seed: false,
                mem_hook_rate: false,
                quantum: false,
                net_latency: false,
                switch_cost: false,
                heap_size: false,
                wall_limit: false,
                stop_after: false,
                reseed: false,
                runs: false,
            },
            opts: Options::default(),
            quantum: DEFAULT_QUANTUM,
            supervisor: true,
            capture: false,
            capture_stderr: false,
            net_latency_ns: 0,
            switch_ns: DEFAULT_SWITCH_NS,
            heap_size: DEFAULT_HEAP,
            stop_after_ns: 0,
            wall_limit_ms: 0,
            reseed_at: None,
            reseed: 0,
            jobs: 4,
            resolution_ns: 2_000_000,
            disable_aslr: true,
            native: false,
            runs: 100,
        }
    }
}

/// Read the options off a command line, the command itself taken away.
pub fn parse_cli(args: &[Arg]) -> (r: Result<Cli, Error>)
    ensures
        match r {
            Ok(cli) => Ok(cli@),
            Err(e) => Err(e@),
        } == command_line(args@),
        r matches Ok(cli) ==> cli.options <= args@.len(),
{
    let mut cli = Cli { settings: Settings::default(), manifest: None, scratch: None, options: 0 };
    let mut i: usize = 0;
    let ghost start = cli@;
    while i < args.len() && args[i].exact
        invariant_except_break
            i <= args@.len(),
            start == (CliView {
                settings: Settings::start(),
                manifest: None,
                scratch: None,
                options: 0,
            }),
            cli.options == 0,
            options(start, args@, 0) == options(cli@, args@, i as int),
        ensures
            i <= args@.len(),
            options(start, args@, 0) == Ok::<CliView, ErrorView>(CliView { options: i as int, ..cli@ }),
        decreases args@.len() - i,
    {
        let name = args[i].text.as_str();
        if same_text(name, "--manifest") || same_text(name, "--scratch") || valued(name) {
            if i + 1 >= args.len() {
                return Err(Error::NeedsValue(name.to_owned()));
            }
            let v = args[i + 1].text.as_str();
            if same_text(name, "--manifest") {
                cli.manifest = Some(v.to_owned());
            } else if same_text(name, "--scratch") {
                cli.scratch = Some(v.to_owned());
            } else {
                match set_value(cli.settings, name, v) {
                    Ok(s) => {
                        cli.settings = s;
                    },
                    Err(e) => {
                        return Err(e);
                    },
                }
            }
            i += 2;
        } else {
            match set_switch(cli.settings, name) {
                Some(s) => {
                    cli.settings = s;
                },
                None => {
                    if starts_with(&chars_of(name), "--") {
                        return Err(Error::Unknown(name.to_owned()));
                    }
                    break;
                },
            }
            i += 1;
        }
    }
    cli.options = i;
    if cli.settings.given.reseed && cli.settings.reseed_at.is_none() {
        return Err(Error::ReseedWhen);
    }
    Ok(cli)
}

/// A setting of the run file, unless the command line gave it
#[verifier::opaque]
pub open spec fn file_value(s: Settings, given: bool, name: Seq<char>, v: Option<Seq<char>>) -> Result<
    Settings,
    ErrorView,
> {
    match v {
        Some(v) => if given {
            Ok(s)
        } else {
            match with_value(s, name, v) {
                Ok(t) => Ok(Settings { given: s.given, ..t }),
                Err(e) => Err(e),
            }
        },
        None => Ok(s),
    }
}

/// What the run file says of the schedule
pub open spec fn with_schedule(s: Settings, m: ManifestView) -> Result<Settings, ErrorView> {
    let g = s.given;
    let s = match m.seed {
        Some(seed) => if g.seed {
            s
        } else {
            Settings { opts: Options { seed, ..s.opts }, ..s }
        },
        None => s,
    };
    match file_value(s, g.quantum, "--quantum"@, m.quantum) {
        Err(e) => Err(e),
        Ok(s) => file_value(s, g.mem_hook_rate, "--mem-hook-rate"@, m.mem_hook_rate),
    }
}

/// What it says of the virtual machine
pub open spec fn with_machine(s: Settings, m: ManifestView) -> Result<Settings, ErrorView> {
    let g = s.given;
    match file_value(s, g.net_latency, "--net-latency"@, m.net_latency) {
        Err(e) => Err(e),
        Ok(s) => match file_value(s, g.switch_cost, "--switch-cost"@, m.switch_cost) {
            Err(e) => Err(e),
            Ok(s) => file_value(s, g.heap_size, "--heap-size"@, m.heap_size),
        },
    }
}

/// What it says of the end of the run
pub open spec fn with_end(s: Settings, m: ManifestView) -> Result<Settings, ErrorView> {
    let g = s.given;
    match file_value(s, g.stop_after, "--stop-after"@, m.stop_after) {
        Err(e) => Err(e),
        Ok(s) => file_value(s, g.wall_limit, "--wall-limit"@, m.wall_limit),
    }
}

/// The run's settings: the run file's, unless the command line gave them
pub open spec fn with_file(s: Settings, m: ManifestView) -> Result<Settings, ErrorView> {
    match with_schedule(s, m) {
        Err(e) => Err(e),
        Ok(s) => match with_machine(s, m) {
            Err(e) => Err(e),
            Ok(s) => with_end(s, m),
        },
    }
}

/// A result seen by its view
pub open spec fn seen(r: Result<Settings, Error>) -> Result<Settings, ErrorView> {
    match r {
        Ok(s) => Ok(s),
        Err(e) => Err(e@),
    }
}

fn take_from_file(s: Settings, given: bool, name: &str, v: &Option<String>) -> (r: Result<
    Settings,
    Error,
>)
    ensures
        r matches Ok(t) ==> t.given == s.given,
        seen(r) == file_value(
            s,
            given,
            name@,
            match *v {
                Some(v) => Some(v@),
                None => None,
            },
        ),
{
    reveal(file_value);
    match v {
        Some(v) => if given {
            Ok(s)
        } else {
            match set_value(s, name, v.as_str()) {
                Ok(t) => Ok(Settings { given: s.given, ..t }),
                Err(e) => Err(e),
            }
        },
        None => Ok(s),
    }
}

fn take_schedule(settings: Settings, m: &Manifest) -> (r: Result<Settings, Error>)
    ensures
        seen(r) == with_schedule(settings, m@),
        r matches Ok(s) ==> s.given == settings.given,
{
    let g: Given = settings.given;
    let mut s = settings;
    match m.seed {
        Some(seed) => if !g.seed {
            s.opts.seed = seed;
        },
        None => {},
    }
    match take_from_file(s, g.quantum, "--quantum", &m.quantum) {
        Ok(s) => take_from_file(s, g.mem_hook_rate, "--mem-hook-rate", &m.mem_hook_rate),
        Err(e) => Err(e),
    }
}

fn take_machine(s: Settings, m: &Manifest) -> (r: Result<Settings, Error>)
    ensures
        seen(r) == with_machine(s, m@),
        r matches Ok(t) ==> t.given == s.given,
{
    let g: Given = s.given;
    match take_from_file(s, g.net_latency, "--net-latency", &m.net_latency) {
        Ok(s) => match take_from_file(s, g.switch_cost, "--switch-cost", &m.switch_cost) {
            Ok(s) => take_from_file(s, g.heap_size, "--heap-size", &m.heap_size),
            Err(e) => Err(e),
        },
        Err(e) => Err(e),
    }
}

fn take_end(s: Settings, m: &Manifest) -> (r: Result<Settings, Error>)
    ensures
        seen(r) == with_end(s, m@),
{
    let g: Given = s.given;
    match take_from_file(s, g.stop_after, "--stop-after", &m.stop_after) {
        Ok(s) => take_from_file(s, g.wall_limit, "--wall-limit", &m.wall_limit),
        Err(e) => Err(e),
    }
}

/// The run's settings: the run file's, unless the command line gave them.
pub fn with_run_file_settings(settings: Settings, m: &Manifest) -> (r: Result<Settings, Error>)
    ensures
        seen(r) == with_file(settings, m@),
{
    match take_schedule(settings, m) {
        Ok(s) => match take_machine(s, m) {
            Ok(s) => take_end(s, m),
            Err(e) => Err(e),
        },
        Err(e) => Err(e),
    }
}

/// What the command line gave stays, whatever the run file says.
pub proof fn the_command_line_wins(s: Settings, m: ManifestView)
    requires
        with_file(s, m) is Ok,
    ensures
        ({
            let r = with_file(s, m)->Ok_0;
            &&& s.given.seed ==> r.opts.seed == s.opts.seed
            &&& s.given.mem_hook_rate ==> r.opts.mem_rate == s.opts.mem_rate
            &&& s.given.quantum ==> r.quantum == s.quantum
            &&& s.given.net_latency ==> r.net_latency_ns == s.net_latency_ns
            &&& s.given.switch_cost ==> r.switch_ns == s.switch_ns
            &&& s.given.heap_size ==> r.heap_size == s.heap_size
            &&& s.given.stop_after ==> r.stop_after_ns == s.stop_after_ns
            &&& s.given.wall_limit ==> r.wall_limit_ms == s.wall_limit_ms
            &&& r.given == s.given
        }),
{
    let g = s.given;
    let s0 = match m.seed {
        Some(seed) => if g.seed {
            s
        } else {
            Settings { opts: Options { seed, ..s.opts }, ..s }
        },
        None => s,
    };
    lemma_one_setting(s0, g.quantum, m.quantum);
    let s1 = file_value(s0, g.quantum, "--quantum"@, m.quantum)->Ok_0;
    lemma_one_setting(s1, g.mem_hook_rate, m.mem_hook_rate);
    let s2 = file_value(s1, g.mem_hook_rate, "--mem-hook-rate"@, m.mem_hook_rate)->Ok_0;
    lemma_one_setting(s2, g.net_latency, m.net_latency);
    let s3 = file_value(s2, g.net_latency, "--net-latency"@, m.net_latency)->Ok_0;
    lemma_one_setting(s3, g.switch_cost, m.switch_cost);
    let s4 = file_value(s3, g.switch_cost, "--switch-cost"@, m.switch_cost)->Ok_0;
    lemma_one_setting(s4, g.heap_size, m.heap_size);
    let s5 = file_value(s4, g.heap_size, "--heap-size"@, m.heap_size)->Ok_0;
    lemma_one_setting(s5, g.stop_after, m.stop_after);
    let s6 = file_value(s5, g.stop_after, "--stop-after"@, m.stop_after)->Ok_0;
    lemma_one_setting(s6, g.wall_limit, m.wall_limit);
}

/// A setting of the run file changes nothing but itself.
proof fn lemma_one_setting(s: Settings, given: bool, v: Option<Seq<char>>)
    ensures
        file_value(s, given, "--quantum"@, v) matches Ok(t) ==> t == (Settings {
            quantum: t.quantum,
            ..s
        }) && (given ==> t == s),
        file_value(s, given, "--mem-hook-rate"@, v) matches Ok(t) ==> t == (Settings {
            opts: Options { mem_rate: t.opts.mem_rate, ..s.opts },
            ..s
        }) && (given ==> t == s),
        file_value(s, given, "--net-latency"@, v) matches Ok(t) ==> t == (Settings {
            net_latency_ns: t.net_latency_ns,
            ..s
        }) && (given ==> t == s),
        file_value(s, given, "--switch-cost"@, v) matches Ok(t) ==> t == (Settings {
            switch_ns: t.switch_ns,
            ..s
        }) && (given ==> t == s),
        file_value(s, given, "--heap-size"@, v) matches Ok(t) ==> t == (Settings {
            heap_size: t.heap_size,
            ..s
        }) && (given ==> t == s),
        file_value(s, given, "--stop-after"@, v) matches Ok(t) ==> t == (Settings {
            stop_after_ns: t.stop_after_ns,
            ..s
        }) && (given ==> t == s),
        file_value(s, given, "--wall-limit"@, v) matches Ok(t) ==> t == (Settings {
            wall_limit_ms: t.wall_limit_ms,
            ..s
        }) && (given ==> t == s),
{
    reveal(file_value);
    reveal(with_value);
    reveal_strlit("--seed");
    reveal_strlit("--mem-hook-rate");
    reveal_strlit("--quantum");
    reveal_strlit("--net-latency");
    reveal_strlit("--switch-cost");
    reveal_strlit("--heap-size");
    reveal_strlit("--stop-after");
    reveal_strlit("--wall-limit");
    assert("--quantum"@.len() == 9 && "--seed"@.len() == 6 && "--mem-hook-rate"@.len() == 15
        && "--net-latency"@.len() == 13 && "--switch-cost"@.len() == 13 && "--heap-size"@.len()
        == 11 && "--stop-after"@.len() == 12 && "--wall-limit"@.len() == 12);
    assert("--net-latency"@[2] == 'n' && "--switch-cost"@[2] == 's');
    assert("--stop-after"@[2] == 's' && "--wall-limit"@[2] == 'w');
}

/// A replay's options: everything that makes the run, spelled out, so that
/// every replay is that run
pub open spec fn replay_options(s: Settings) -> Seq<Seq<char>> {
    let common = seq![
        "--seed"@,
        text::decimal(s.opts.seed as nat),
        "--quantum"@,
        text::decimal(s.quantum.0 as nat) + ".."@ + text::decimal(s.quantum.1 as nat),
        "--mem-hook-rate"@,
        text::decimal(s.opts.mem_rate.0 as nat) + "/"@ + text::decimal(s.opts.mem_rate.1 as nat),
        "--net-latency"@,
        text::decimal(s.net_latency_ns as nat) + "ns"@,
        "--switch-cost"@,
        text::decimal(s.switch_ns as nat) + "ns"@,
        "--heap-size"@,
        text::decimal(s.heap_size as nat),
    ];
    if s.stop_after_ns != 0 {
        common + seq!["--stop-after"@, text::decimal(s.stop_after_ns as nat) + "ns"@]
    } else {
        common
    }
}

fn numbers(a: u64, between: &str, b: Option<u64>) -> (r: String)
    ensures
        r@ == text::decimal(a as nat) + between@ + (match b {
            Some(b) => text::decimal(b as nat),
            None => Seq::empty(),
        }),
{
    let mut out = String::new();
    push_decimal(&mut out, a);
    out.append(between);
    match b {
        Some(b) => {
            push_decimal(&mut out, b);
        },
        None => {},
    }
    assert(out@ =~= text::decimal(a as nat) + between@ + (match b {
        Some(b) => text::decimal(b as nat),
        None => Seq::empty(),
    }));
    out
}

/// Whether a run with these settings can be replayed: only supervised ones
/// with their addresses fixed can.
pub fn replayable(s: &Settings) -> (r: bool)
    ensures
        r == (!s.native && s.supervisor && s.disable_aslr),
{
    !s.native && s.supervisor && s.disable_aslr
}

/// The options of a replay
pub fn replay_arguments(s: &Settings) -> (r: Vec<String>)
    ensures
        words::texts(r@) == replay_options(*s),
{
    proof {
        reveal_strlit("");
    }
    let mut pass: Vec<String> = Vec::new();
    pass.push("--seed".to_owned());
    pass.push(numbers(s.opts.seed, "", None));
    pass.push("--quantum".to_owned());
    pass.push(numbers(s.quantum.0 as u64, "..", Some(s.quantum.1 as u64)));
    pass.push("--mem-hook-rate".to_owned());
    pass.push(numbers(s.opts.mem_rate.0 as u64, "/", Some(s.opts.mem_rate.1 as u64)));
    pass.push("--net-latency".to_owned());
    pass.push(numbers(s.net_latency_ns, "ns", None));
    pass.push("--switch-cost".to_owned());
    pass.push(numbers(s.switch_ns, "ns", None));
    pass.push("--heap-size".to_owned());
    pass.push(numbers(s.heap_size, "", None));
    if s.stop_after_ns != 0 {
        pass.push("--stop-after".to_owned());
        pass.push(numbers(s.stop_after_ns, "ns", None));
    }
    proof {
        let e = Seq::<char>::empty();
        assert(text::decimal(s.opts.seed as nat) + ""@ + e =~= text::decimal(s.opts.seed as nat));
        assert(text::decimal(s.heap_size as nat) + ""@ + e =~= text::decimal(s.heap_size as nat));
        assert(text::decimal(s.net_latency_ns as nat) + "ns"@ + e =~= text::decimal(
            s.net_latency_ns as nat,
        ) + "ns"@);
        assert(text::decimal(s.switch_ns as nat) + "ns"@ + e =~= text::decimal(s.switch_ns as nat)
            + "ns"@);
        assert(text::decimal(s.stop_after_ns as nat) + "ns"@ + e =~= text::decimal(
            s.stop_after_ns as nat,
        ) + "ns"@);
        assert(words::texts(pass@) =~= replay_options(*s));
    }
    pass
}

proof fn lemma_number(n: nat, max: int)
    requires
        0 <= max,
    ensures
        number(text::decimal(n), max) == (if n <= max {
            Some(n as int)
        } else {
            None
        }),
        !text::decimal(n).contains('.'),
{
    text::digits_read_back(n, 10);
    let d = text::decimal(n);
    assert('0' <= d[0] <= '9' || 'a' <= d[0] <= 'f');
    assert(!d.contains('.')) by {
        if d.contains('.') {
            let i = choose|i: int| 0 <= i < d.len() && d[i] == '.';
            assert('0' <= d[i] <= '9' || 'a' <= d[i] <= 'f');
        }
    }
}

/// A quantum is two numbers with two dots between, the first at least one and
/// not the larger.
pub proof fn two_numbers_are_a_quantum(a: nat, b: nat)
    ensures
        quantum(text::decimal(a) + seq!['.', '.'] + text::decimal(b)) == (if 1 <= a <= b
            && b <= u32::MAX {
            Some((a as u32, b as u32))
        } else {
            None
        }),
{
    reveal_strlit("..");
    assert(".."@ =~= seq!['.', '.']);
    lemma_number(a, u32::MAX as int);
    lemma_number(b, u32::MAX as int);
    words::a_text_is_split_where_it_stands(text::decimal(a), ".."@, text::decimal(b));
}

/// The bounds of what can be asked for: a hand-off takes a microsecond at
/// least, a run stops after some time at least, and a heap has between 64
/// megabytes and 4 terabytes.
pub proof fn settings_have_bounds(v: Seq<char>, ns: u64, bytes: u64)
    requires
        units::duration(v) == Some(ns),
        units::size(v) == Some(bytes),
    ensures
        switch_cost(v) == (if ns >= 1_000 {
            Some(ns)
        } else {
            None
        }),
        stop_after(v) == (if ns > 0 {
            Some(ns)
        } else {
            None
        }),
        heap_size_of(v) == (if 64 * 1024 * 1024 <= bytes <= 4 * 1024 * 1024 * 1024 * 1024 {
            Some(bytes)
        } else {
            None
        }),
{
}

proof fn lemma_options()
    ensures
        "--seed"@.len() == 6,
        "--mem-hook-rate"@.len() == 15,
        "--quantum"@.len() == 9,
        "--net-latency"@.len() == 13,
        "--switch-cost"@.len() == 13,
        "--heap-size"@.len() == 11,
        "--wall-limit"@.len() == 12,
        "--stop-after"@.len() == 12,
        "--reseed-at"@.len() == 11,
        "--jobs"@.len() == 6,
        "--resolution"@.len() == 12,
        "--reseed"@.len() == 8,
        "--runs"@.len() == 6,
        "--seed"@[2] == 's',
        "--jobs"@[2] == 'j',
        "--runs"@[2] == 'r',
        "--net-latency"@[2] == 'n',
        "--switch-cost"@[2] == 's',
        "--heap-size"@[2] == 'h',
        "--reseed-at"@[2] == 'r',
        "--wall-limit"@[2] == 'w',
        "--stop-after"@[2] == 's',
        "--resolution"@[2] == 'r',
{
    reveal_strlit("--seed");
    reveal_strlit("--mem-hook-rate");
    reveal_strlit("--quantum");
    reveal_strlit("--net-latency");
    reveal_strlit("--switch-cost");
    reveal_strlit("--heap-size");
    reveal_strlit("--wall-limit");
    reveal_strlit("--stop-after");
    reveal_strlit("--reseed-at");
    reveal_strlit("--jobs");
    reveal_strlit("--resolution");
    reveal_strlit("--reseed");
    reveal_strlit("--runs");
}

/// An option sets what it names, to the value it is given, and nothing else.
#[verifier::rlimit(40)]
pub proof fn an_option_sets_what_it_names(s: Settings, n: nat, v: Seq<char>, ns: u64)
    requires
        n <= u32::MAX,
        units::duration(v) == Some(ns),
    ensures
        ({
            let d = text::decimal(n);
            &&& with_value(s, "--seed"@, d) matches Ok(t) && t.opts.seed == n && t.given.seed && t
                == (Settings { opts: t.opts, given: t.given, ..s })
            &&& with_value(s, "--jobs"@, d) matches Ok(t) && t == (Settings { jobs: n as u32, ..s })
            &&& with_value(s, "--runs"@, d) matches Ok(t) && t.runs == n && t.given.runs && t == (
            Settings { runs: t.runs, given: t.given, ..s })
            &&& with_value(s, "--reseed"@, d) matches Ok(t) && t.reseed == n && t.given.reseed && t
                == (Settings { reseed: t.reseed, given: t.given, ..s })
            &&& with_value(s, "--net-latency"@, v) matches Ok(t) && t.net_latency_ns == ns
                && t.given.net_latency && t == (Settings {
                net_latency_ns: t.net_latency_ns,
                given: t.given,
                ..s
            })
            &&& with_value(s, "--reseed-at"@, v) matches Ok(t) && t == (Settings {
                reseed_at: Some(ns),
                ..s
            })
            &&& with_value(s, "--resolution"@, v) matches Ok(t) && t == (Settings {
                resolution_ns: ns,
                ..s
            })
            &&& ns >= 1_000 ==> (with_value(s, "--switch-cost"@, v) matches Ok(t) && t.switch_ns
                == ns && t.given.switch_cost && t == (Settings {
                switch_ns: t.switch_ns,
                given: t.given,
                ..s
            }))
            &&& ns > 0 ==> (with_value(s, "--stop-after"@, v) matches Ok(t) && t.stop_after_ns == ns
                && t.given.stop_after && t == (Settings {
                stop_after_ns: t.stop_after_ns,
                given: t.given,
                ..s
            }))
            &&& ns > 0 ==> (with_value(s, "--wall-limit"@, v) matches Ok(t) && t.wall_limit_ms == ns
                / 1_000_000 && t.given.wall_limit && t == (Settings {
                wall_limit_ms: t.wall_limit_ms,
                given: t.given,
                ..s
            }))
        }),
{
    reveal(with_value);
    lemma_options();
    lemma_number(n, u64::MAX as int);
    lemma_number(n, u32::MAX as int);
}

/// What the command line left open the run file decides, and what both left
/// open stays as it was.
#[verifier::rlimit(40)]
pub proof fn the_run_file_decides_the_rest(s: Settings, m: ManifestView)
    requires
        with_file(s, m) is Ok,
    ensures
        ({
            let r = with_file(s, m)->Ok_0;
            &&& !s.given.seed ==> (m.seed matches Some(seed) ==> r.opts.seed == seed)
            &&& !s.given.quantum ==> (m.quantum matches Some(v) ==> quantum(v) == Some(r.quantum))
            &&& !s.given.mem_hook_rate ==> (m.mem_hook_rate matches Some(v) ==> rewrite::rate_of(v)
                == Some(r.opts.mem_rate))
            &&& !s.given.net_latency ==> (m.net_latency matches Some(v) ==> units::duration(v)
                == Some(r.net_latency_ns))
            &&& !s.given.switch_cost ==> (m.switch_cost matches Some(v) ==> units::duration(v)
                == Some(r.switch_ns))
            &&& !s.given.heap_size ==> (m.heap_size matches Some(v) ==> units::size(v) == Some(
                r.heap_size,
            ))
            &&& !s.given.stop_after ==> (m.stop_after matches Some(v) ==> units::duration(v)
                == Some(r.stop_after_ns))
            &&& m.seed is None ==> r.opts.seed == s.opts.seed
            &&& m.quantum is None ==> r.quantum == s.quantum
            &&& m.net_latency is None ==> r.net_latency_ns == s.net_latency_ns
            &&& m.switch_cost is None ==> r.switch_ns == s.switch_ns
            &&& m.heap_size is None ==> r.heap_size == s.heap_size
            &&& m.stop_after is None ==> r.stop_after_ns == s.stop_after_ns
            &&& m.wall_limit is None ==> r.wall_limit_ms == s.wall_limit_ms
        }),
{
    let g = s.given;
    let s0 = match m.seed {
        Some(seed) => if g.seed {
            s
        } else {
            Settings { opts: Options { seed, ..s.opts }, ..s }
        },
        None => s,
    };
    lemma_one_setting(s0, g.quantum, m.quantum);
    lemma_file_value(s0, g.quantum, m.quantum);
    let s1 = file_value(s0, g.quantum, "--quantum"@, m.quantum)->Ok_0;
    lemma_one_setting(s1, g.mem_hook_rate, m.mem_hook_rate);
    lemma_file_value(s1, g.mem_hook_rate, m.mem_hook_rate);
    let s2 = file_value(s1, g.mem_hook_rate, "--mem-hook-rate"@, m.mem_hook_rate)->Ok_0;
    lemma_one_setting(s2, g.net_latency, m.net_latency);
    lemma_file_value(s2, g.net_latency, m.net_latency);
    let s3 = file_value(s2, g.net_latency, "--net-latency"@, m.net_latency)->Ok_0;
    lemma_one_setting(s3, g.switch_cost, m.switch_cost);
    lemma_file_value(s3, g.switch_cost, m.switch_cost);
    let s4 = file_value(s3, g.switch_cost, "--switch-cost"@, m.switch_cost)->Ok_0;
    lemma_one_setting(s4, g.heap_size, m.heap_size);
    lemma_file_value(s4, g.heap_size, m.heap_size);
    let s5 = file_value(s4, g.heap_size, "--heap-size"@, m.heap_size)->Ok_0;
    lemma_one_setting(s5, g.stop_after, m.stop_after);
    lemma_file_value(s5, g.stop_after, m.stop_after);
    let s6 = file_value(s5, g.stop_after, "--stop-after"@, m.stop_after)->Ok_0;
    lemma_one_setting(s6, g.wall_limit, m.wall_limit);
    lemma_file_value(s6, g.wall_limit, m.wall_limit);
}

#[verifier::rlimit(40)]
proof fn lemma_file_value(s: Settings, given: bool, v: Option<Seq<char>>)
    ensures
        v is None ==> (file_value(s, given, "--quantum"@, v) matches Ok(t) ==> t == s),
        v is None ==> (file_value(s, given, "--mem-hook-rate"@, v) matches Ok(t) ==> t == s),
        v is None ==> (file_value(s, given, "--net-latency"@, v) matches Ok(t) ==> t == s),
        v is None ==> (file_value(s, given, "--switch-cost"@, v) matches Ok(t) ==> t == s),
        v is None ==> (file_value(s, given, "--heap-size"@, v) matches Ok(t) ==> t == s),
        v is None ==> (file_value(s, given, "--stop-after"@, v) matches Ok(t) ==> t == s),
        v is None ==> (file_value(s, given, "--wall-limit"@, v) matches Ok(t) ==> t == s),
        v is Some && !given ==> (file_value(s, given, "--quantum"@, v) matches Ok(t) ==> quantum(
            v.unwrap(),
        ) == Some(t.quantum)),
        v is Some && !given ==> (file_value(s, given, "--mem-hook-rate"@, v) matches Ok(t)
            ==> rewrite::rate_of(v.unwrap()) == Some(t.opts.mem_rate)),
        v is Some && !given ==> (file_value(s, given, "--net-latency"@, v) matches Ok(t)
            ==> units::duration(v.unwrap()) == Some(t.net_latency_ns)),
        v is Some && !given ==> (file_value(s, given, "--switch-cost"@, v) matches Ok(t)
            ==> units::duration(v.unwrap()) == Some(t.switch_ns)),
        v is Some && !given ==> (file_value(s, given, "--heap-size"@, v) matches Ok(t)
            ==> units::size(v.unwrap()) == Some(t.heap_size)),
        v is Some && !given ==> (file_value(s, given, "--stop-after"@, v) matches Ok(t)
            ==> units::duration(v.unwrap()) == Some(t.stop_after_ns)),
{
    reveal(file_value);
    reveal(with_value);
    lemma_options();
}

/// A run that is repeated is given the settings it had: what is spelled out for
/// it, option by option, is read as it was.
#[verifier::rlimit(40)]
pub proof fn what_is_spelled_out_reads_back(s: Settings, t: Settings)
    requires
        1 <= s.quantum.0 <= s.quantum.1,
        0 < s.opts.mem_rate.1,
        s.opts.mem_rate.0 <= s.opts.mem_rate.1,
        s.switch_ns >= 1_000,
        HEAP_RANGE.0 <= s.heap_size <= HEAP_RANGE.1,
        s.stop_after_ns != 0,
    ensures
        ({
            let o = replay_options(s);
            &&& o.len() == 14
            &&& with_value(t, o[0], o[1]) matches Ok(r) && r.opts.seed == s.opts.seed
            &&& with_value(t, o[2], o[3]) matches Ok(r) && r.quantum == s.quantum
            &&& with_value(t, o[4], o[5]) matches Ok(r) && r.opts.mem_rate == s.opts.mem_rate
            &&& with_value(t, o[6], o[7]) matches Ok(r) && r.net_latency_ns == s.net_latency_ns
            &&& with_value(t, o[8], o[9]) matches Ok(r) && r.switch_ns == s.switch_ns
            &&& with_value(t, o[10], o[11]) matches Ok(r) && r.heap_size == s.heap_size
            &&& with_value(t, o[12], o[13]) matches Ok(r) && r.stop_after_ns == s.stop_after_ns
        }),
{
    let o = replay_options(s);
    reveal(with_value);
    lemma_options();
    lemma_number(s.opts.seed as nat, u64::MAX as int);
    reveal_strlit("..");
    reveal_strlit("/");
    reveal_strlit("ns");
    assert(".."@ =~= seq!['.', '.']);
    assert("/"@ =~= seq!['/']);
    assert("ns"@ =~= seq!['n', 's']);
    two_numbers_are_a_quantum(s.quantum.0 as nat, s.quantum.1 as nat);
    rewrite::two_numbers_are_a_rate(s.opts.mem_rate.0 as nat, s.opts.mem_rate.1 as nat);
    units::a_number_with_a_unit_is_a_duration(s.net_latency_ns as nat);
    units::a_number_with_a_unit_is_a_duration(s.switch_ns as nat);
    units::a_number_with_a_unit_is_a_duration(s.stop_after_ns as nat);
    units::a_number_with_a_letter_is_a_size(s.heap_size as nat);
}

/// Options are taken one after the other: one that takes a value takes what
/// follows it, and a switch nothing; what is no option ends them, and an unknown
/// one or one without its value is an error.
pub proof fn options_are_taken_in_order(cli: CliView, args: Seq<Arg>, i: int)
    requires
        0 <= i < args.len(),
        args[i].exact,
    ensures
        ({
            let name = args[i].text@;
            let r = options(cli, args, i);
            &&& takes_value(name) && name != "--manifest"@ && name != "--scratch"@ && i + 1
                < args.len() ==> match with_value(cli.settings, name, args[i + 1].text@) {
                Ok(settings) => r == options(CliView { settings, ..cli }, args, i + 2),
                Err(e) => r == Err::<CliView, ErrorView>(e),
            }
            &&& name == "--manifest"@ && i + 1 < args.len() ==> r == options(
                CliView { manifest: Some(args[i + 1].text@), ..cli },
                args,
                i + 2,
            )
            &&& name == "--scratch"@ && i + 1 < args.len() ==> r == options(
                CliView { scratch: Some(args[i + 1].text@), ..cli },
                args,
                i + 2,
            )
            &&& (takes_value(name) || name == "--manifest"@ || name == "--scratch"@) && i + 1
                >= args.len() ==> r == Err::<CliView, ErrorView>(ErrorView::NeedsValue(name))
            &&& name.len() == 0 || name[0] != '-' ==> r == Ok::<CliView, ErrorView>(
                CliView { options: i, ..cli },
            )
        }),
{
    let name = args[i].text@;
    if name.len() == 0 || name[0] != '-' {
        lemma_dashes();
        assert("--"@.is_prefix_of(name) ==> name[0] == "--"@[0]);
    }
    if name == "--manifest"@ || name == "--scratch"@ {
        lemma_files();
    }
}

proof fn lemma_files()
    ensures
        "--manifest"@ != "--scratch"@,
{
    reveal_strlit("--manifest");
    reveal_strlit("--scratch");
    assert("--manifest"@.len() == 10 && "--scratch"@.len() == 9);
}

proof fn lemma_dashes()
    ensures
        "--"@.len() == 2,
        "--"@[0] == '-',
        "--seed"@.len() > 0 && "--seed"@[0] == '-',
        "--mem-hook-rate"@.len() > 0 && "--mem-hook-rate"@[0] == '-',
        "--quantum"@.len() > 0 && "--quantum"@[0] == '-',
        "--net-latency"@.len() > 0 && "--net-latency"@[0] == '-',
        "--switch-cost"@.len() > 0 && "--switch-cost"@[0] == '-',
        "--heap-size"@.len() > 0 && "--heap-size"@[0] == '-',
        "--wall-limit"@.len() > 0 && "--wall-limit"@[0] == '-',
        "--stop-after"@.len() > 0 && "--stop-after"@[0] == '-',
        "--reseed-at"@.len() > 0 && "--reseed-at"@[0] == '-',
        "--jobs"@.len() > 0 && "--jobs"@[0] == '-',
        "--resolution"@.len() > 0 && "--resolution"@[0] == '-',
        "--reseed"@.len() > 0 && "--reseed"@[0] == '-',
        "--runs"@.len() > 0 && "--runs"@[0] == '-',
        "--manifest"@.len() > 0 && "--manifest"@[0] == '-',
        "--scratch"@.len() > 0 && "--scratch"@[0] == '-',
        "--capture"@.len() > 0 && "--capture"@[0] == '-',
        "--capture-stderr"@.len() > 0 && "--capture-stderr"@[0] == '-',
        "--no-supervisor"@.len() > 0 && "--no-supervisor"@[0] == '-',
        "--aslr"@.len() > 0 && "--aslr"@[0] == '-',
        "--native"@.len() > 0 && "--native"@[0] == '-',
{
    reveal_strlit("--");
    reveal_strlit("--seed");
    reveal_strlit("--mem-hook-rate");
    reveal_strlit("--quantum");
    reveal_strlit("--net-latency");
    reveal_strlit("--switch-cost");
    reveal_strlit("--heap-size");
    reveal_strlit("--wall-limit");
    reveal_strlit("--stop-after");
    reveal_strlit("--reseed-at");
    reveal_strlit("--jobs");
    reveal_strlit("--resolution");
    reveal_strlit("--reseed");
    reveal_strlit("--runs");
    reveal_strlit("--manifest");
    reveal_strlit("--scratch");
    reveal_strlit("--capture");
    reveal_strlit("--capture-stderr");
    reveal_strlit("--no-supervisor");
    reveal_strlit("--aslr");
    reveal_strlit("--native");
}

/// A switch sets what it says.
pub proof fn a_switch_sets_what_it_says(s: Settings)
    ensures
        switched(s, "--capture"@) == Some(Settings { capture: true, ..s }),
        switched(s, "--capture-stderr"@) == Some(Settings { capture_stderr: true, ..s }),
        switched(s, "--no-supervisor"@) == Some(Settings { supervisor: false, ..s }),
        switched(s, "--aslr"@) == Some(Settings { disable_aslr: false, ..s }),
        switched(s, "--native"@) == Some(Settings { native: true, ..s }),
{
    reveal_strlit("--capture");
    reveal_strlit("--capture-stderr");
    reveal_strlit("--no-supervisor");
    reveal_strlit("--aslr");
    reveal_strlit("--native");
    assert("--capture"@.len() == 9 && "--capture-stderr"@.len() == 16 && "--no-supervisor"@.len()
        == 15 && "--aslr"@.len() == 6 && "--native"@.len() == 8);
}

} // verus!
