use derp::coord::Coordinator;
use derp::launch::{Guest, Next, Outcome, Report, RunOutcome, Supervision, SIGKILL};
use derp::coord::Totals;
use derp::manifest::{self, Host, Manifest, Node, Process};
use derp::plan::{
    check_outcome, check_run, guests_of, output_file, scratch_use, Error, Scratch, Setting,
};
use derp::report::{
    describe_status, exit_from, exit_from_run, failed_life, observe_run, observe_single,
    run_report, same_run, Exit,
};
use derp::settings::{
    self, parse_cli, parse_quantum, parse_stop_after, parse_switch_cost, replay_arguments,
    replayable, with_run_file_settings, Arg, Cli, Settings,
};
use derp::shared::{Faults, RESTART_ALWAYS, RESTART_NEVER};

fn outcome(status: i32) -> Outcome {
    Outcome {
        status,
        report: Report::parse(""),
        stopped: false,
        program: None,
        image: None,
    }
}

fn run(guests: Vec<Outcome>, daemons: Vec<bool>, specs: Vec<Option<usize>>) -> RunOutcome {
    RunOutcome {
        initial: daemons.len(),
        guests,
        daemons,
        specs,
        totals: Totals::none(),
        deadlock: false,
        wall_limited: false,
    }
}

#[test]
fn reports_are_read_by_key() {
    let r = Report::parse("b = 2\na=1\nnothing\n a = 7 \nx=y=z\n");
    assert_eq!(r.get("a").unwrap(), "7");
    assert_eq!(r.get("x").unwrap(), "y=z");
    assert_eq!(r.get_u64("b"), Some(2));
    assert_eq!(r.get_u64("x"), None);
    assert!(r.get("nothing").is_none());
    let keys: Vec<&str> = r.fields.iter().map(|f| f.0.as_str()).collect();
    assert_eq!(keys, ["a", "b", "x"]);
}

#[test]
fn wait_statuses() {
    // As `wait` gives them: the exit code in the second byte, the signal in
    // the low seven bits
    let exited = outcome(3 << 8);
    assert_eq!((exited.exit_code(), exited.signal()), (Some(3), None));
    assert_eq!(describe_status(&exited), "exit 3");
    assert_eq!(exit_from(&exited), Exit::Code(3));
    let killed = outcome(SIGKILL);
    assert_eq!((killed.exit_code(), killed.signal()), (None, Some(9)));
    assert_eq!(describe_status(&killed), "signal 9");
    assert_eq!(exit_from(&killed), Exit::Killed(9));
    assert_eq!(Exit::Killed(9).message(), "guest killed by signal 9");
    let dumped = outcome(0x80 | 6);
    assert_eq!(dumped.signal(), Some(6));
    let odd = outcome(0x7F | 0x1100);
    assert_eq!((odd.exit_code(), odd.signal()), (None, None));
    assert_eq!(describe_status(&odd), "abnormal");
    assert_eq!(exit_from(&odd), Exit::Abnormal);
    assert_eq!(Exit::Abnormal.message(), "guest ended abnormally");
    let mut stopped = outcome(SIGKILL);
    stopped.stopped = true;
    assert_eq!(describe_status(&stopped), "stopped");
    assert_eq!(exit_from(&stopped), Exit::Code(0));
    assert_eq!(outcome(255 << 8).exit_code(), Some(255));
}

#[test]
fn a_run_fails_by_its_first_failed_last_life() {
    // Entry 0 crashed once and was restarted, entry 1 is a daemon
    let o = run(
        vec![outcome(6), outcome(SIGKILL), outcome(0), outcome(5 << 8)],
        vec![false, true, false],
        vec![Some(0), Some(1), Some(0), Some(2)],
    );
    assert_eq!(failed_life(&o), Some((2, 3)));
    assert_eq!(exit_from_run(&o), Exit::Code(5));
    let o = run(
        vec![outcome(0), outcome(SIGKILL), outcome(1 << 8)],
        vec![false, true],
        vec![Some(0), Some(1), None],
    );
    assert_eq!(failed_life(&o), None);
    assert_eq!(exit_from_run(&o), Exit::Code(0));
}

#[test]
fn the_report_of_a_run() {
    let mut o = run(
        vec![outcome(0), outcome(6)],
        vec![false, false],
        vec![Some(0), Some(1)],
    );
    o.guests[0].report = Report::parse("cpu_user_ns=5\nswitches=9\nhooks=3\n");
    o.guests[1].report = Report::parse("cpu_user_ns=7\n");
    o.guests[1].program = Some("/bin/a".into());
    o.guests[1].image = Some("/c/a".into());
    o.totals.died_at = vec![10, 20];
    o.totals.counts.schedule_hash = 0xAB;
    o.totals.stopped_at = 99;
    o.wall_limited = true;
    assert_eq!(
        run_report(&o),
        [
            "run.processes=2",
            "run.threads=0",
            "run.switches=0",
            "run.expiries=0",
            "run.schedule_hash=00000000000000ab",
            "run.net_connections=0",
            "run.net_datagrams=0",
            "run.net_dropped=0",
            "run.net_bytes=0",
            "run.net_passthrough=0",
            "run.crashes_injected=0",
            "run.restarts=0",
            "run.clock_ns=0",
            "run.stopped_at=99",
            "run.wall_limited=true",
            "run.cpu_user_ns=12",
            "run.cpu_system_ns=0",
            "run.failure=entry 1: signal 6",
            "run.failure_at=20",
            "p0.status=exit 0",
            "p0.died_at=10",
            "p0.entry=0",
            "p0.cpu_user_ns=5",
            "p0.hooks=3",
            "p1.status=signal 6",
            "p1.died_at=20",
            "p1.entry=1",
            "p1.program=/bin/a",
            "p1.image=/c/a",
            "p1.cpu_user_ns=7",
        ]
    );
}

#[test]
fn runs_are_compared_by_what_shows() {
    let o = run(vec![outcome(0)], vec![false], vec![Some(0)]);
    let a = observe_run(&o, &vec!["hello".into()]);
    assert_eq!(a.guests, [("exit 0".to_string(), "hello".to_string())]);
    assert_eq!(a.hash, "0000000000000000");
    assert!(same_run(&a, &observe_run(&o, &vec!["hello".into()])));
    assert!(!same_run(&a, &observe_run(&o, &vec!["other".into()])));
    let mut single = outcome(1 << 8);
    single.report = Report::parse("schedule_hash=77\n");
    let s = observe_single(&single, "x".into());
    assert_eq!(s.hash, "77");
    assert_eq!(s.guests, [("exit 1".to_string(), "x".to_string())]);
    assert!(!same_run(&a, &s));
}

fn process(host: u32, argv: &[&str], env: &[(&str, &str)]) -> Process {
    Process {
        host,
        argv: argv.iter().map(|s| s.to_string()).collect(),
        env: env.iter().map(|(k, v)| (k.to_string(), v.to_string())).collect(),
        daemon: false,
        faults: Faults::default(),
    }
}

fn run_file() -> Manifest {
    Manifest {
        hosts: vec![Host { name: "alpha".into(), files: Vec::new() }],
        processes: vec![process(0, &["srv", "-p", "80"], &[("LANG", "de")])],
        seed: Some(5),
        quantum: Some("10..20".into()),
        mem_hook_rate: None,
        net_latency: Some("5ms".into()),
        switch_cost: None,
        heap_size: None,
        stop_after: None,
        wall_limit: Some("2s".into()),
        outside_network: false,
        env: vec![("LOG".into(), "debug".into())],
        pass_env: Vec::new(),
        allow: Vec::new(),
    }
}

#[test]
fn guests_of_a_run_file() {
    let s = Setting {
        programs: vec![("/p/srv".into(), "/p/srv.rw4".into())],
        roots: vec!["/s/alpha".into()],
        passed: vec![("SSL".into(), "x".into())],
        allow: vec!["/opt/a".into(), "/opt/b".into()],
        scratch: "/s".into(),
        capture: true,
        capture_stderr: false,
    };
    let g = guests_of(&run_file(), &s);
    assert_eq!(g.len(), 1);
    assert_eq!((g[0].program.as_str(), g[0].exe.as_str()), ("/p/srv", "/p/srv.rw4"));
    assert_eq!(g[0].argv0.as_deref(), Some("srv"));
    assert_eq!(g[0].args, ["-p", "80"]);
    assert_eq!(g[0].stdout.as_deref(), Some("/s/stdout.0"));
    assert_eq!(g[0].stderr, None);
    assert_eq!(g[0].cwd.as_deref(), Some("/s/alpha"));
    let env: Vec<String> = g[0].env.iter().map(|(k, v)| format!("{k}={v}")).collect();
    assert_eq!(
        env,
        [
            "PATH=/usr/bin:/bin:/usr/sbin:/sbin",
            "LANG=de",
            "LC_ALL=C",
            "TZ=UTC",
            "USER=guest",
            "LOGNAME=guest",
            "SSL=x",
            "PWD=/s/alpha",
            "HOME=/s/alpha",
            "TMPDIR=/s/alpha/tmp",
            "LOG=debug",
            "REWRITE_HOST_ROOT=/s/alpha",
            "REWRITE_ALLOW=/opt/a:/opt/b",
        ]
    );
    assert_eq!(output_file("/s", "stderr", 12), "/s/stderr.12");
    assert_eq!(scratch_use(false, false, true), Scratch::Make);
    assert_eq!(scratch_use(true, true, false), Scratch::Clear);
    assert_eq!(scratch_use(true, false, true), Scratch::Clear);
    assert_eq!(scratch_use(true, false, false), Scratch::Refuse);
}

fn guest(restart: u8) -> Guest {
    Guest {
        program: "a".into(),
        exe: "a".into(),
        argv0: None,
        args: Vec::new(),
        host: 0,
        env: Vec::new(),
        stdout: None,
        stderr: None,
        cwd: None,
        daemon: false,
        faults: Faults { restart, ..Faults::default() },
    }
}

#[test]
fn what_a_run_must_have_and_must_not_show() {
    let plain = vec![guest(RESTART_NEVER)];
    assert_eq!(check_run(0, false, &plain), Ok(()));
    assert_eq!(check_run(5, true, &plain), Ok(()));
    assert_eq!(check_run(5, false, &plain), Err(Error::StopAfter));
    let again = vec![guest(RESTART_ALWAYS)];
    assert_eq!(check_run(0, true, &again), Ok(()));
    assert_eq!(check_run(0, false, &again), Err(Error::Faults));
    let mut o = run(vec![outcome(0)], vec![false], vec![Some(0)]);
    assert_eq!(check_outcome(&o), Ok(()));
    o.deadlock = true;
    assert_eq!(check_outcome(&o), Err(Error::Deadlock));
    o.totals.restarts_refused = 3;
    assert_eq!(check_outcome(&o), Err(Error::TableFull(3)));
    assert_eq!(
        Error::TableFull(3).message(),
        "the run's process table is full: 3 restarts were not made"
    );
    assert_eq!(
        Error::StopAfter.message(),
        "stop-after needs the supervisor: it is a virtual time"
    );
    assert_eq!(Error::Faults.message(), "crash and restart settings need the supervisor");
    assert_eq!(
        Error::Deadlock.message(),
        "deadlock: every guest thread was blocked; the run was killed"
    );
}

fn cli(args: &[&str]) -> Result<Cli, String> {
    let args: Vec<Arg> = args
        .iter()
        .map(|a| Arg { text: a.to_string(), exact: true })
        .collect();
    parse_cli(&args).map_err(|e| e.message())
}

#[test]
fn options_of_the_command_line() {
    let c = cli(&[
        "--seed", "7", "--mem-hook-rate", "1/16", "--quantum", "10..20", "--switch-cost", "2us",
        "--heap-size", "1G", "--stop-after", "3s", "--wall-limit", "2s", "--jobs", "2",
        "--resolution", "1ms", "--reseed-at", "5ms", "--reseed", "9", "--runs", "3", "--capture",
        "--native", "--manifest", "run.yaml", "--scratch", "/s", "prog", "--seed", "x",
    ])
    .unwrap();
    let s = &c.settings;
    assert_eq!((s.opts.seed, s.opts.mem_rate, s.quantum), (7, (1, 16), (10, 20)));
    assert_eq!((s.switch_ns, s.heap_size), (2_000, 1 << 30));
    assert_eq!((s.stop_after_ns, s.wall_limit_ms), (3_000_000_000, 2_000));
    assert_eq!((s.jobs, s.resolution_ns, s.runs), (2, 1_000_000, 3));
    assert_eq!((s.reseed_at, s.reseed), (Some(5_000_000), 9));
    assert!(s.capture && s.native && s.supervisor && s.disable_aslr && !s.capture_stderr);
    assert_eq!(c.manifest.as_deref(), Some("run.yaml"));
    assert_eq!(c.scratch.as_deref(), Some("/s"));
    // What follows is the program's
    assert_eq!(c.options, 30);
    let d = Settings::default();
    assert_eq!((d.quantum, d.switch_ns, d.jobs, d.runs), ((1000, 10000), 10_000, 4, 100));
    assert_eq!((d.heap_size, d.resolution_ns), (32 << 30, 2_000_000));
}

#[test]
fn options_that_are_wrong() {
    for (args, message) in [
        (vec!["--seed"], "--seed needs a value"),
        (vec!["--wat"], "unknown option --wat"),
        (vec!["--seed", "x"], "bad seed"),
        (vec!["--mem-hook-rate", "2/1"], "bad rate 2/1"),
        (vec!["--quantum", "5..4"], "bad quantum 5..4"),
        (vec!["--quantum", "0..4"], "bad quantum 0..4"),
        (vec!["--net-latency", "soon"], "bad duration soon"),
        (vec!["--switch-cost", "999ns"], "bad switch cost 999ns (at least 1us)"),
        (vec!["--heap-size", "big"], "bad heap size big"),
        (vec!["--heap-size", "63M"], "bad heap size 63M"),
        (vec!["--heap-size", "5T"], "bad heap size 5T"),
        (vec!["--stop-after", "0s"], "bad stop-after time 0s"),
        (vec!["--reseed-at", "then"], "bad time then"),
        (vec!["--jobs", "many"], "bad job count"),
        (vec!["--reseed-at", "1s", "--reseed", "x"], "bad reseed value"),
        (vec!["--runs", "x"], "bad --runs"),
        (vec!["--reseed", "1"], "--reseed needs --reseed-at: from when?"),
    ] {
        assert_eq!(cli(&args).err().unwrap(), message);
    }
    // A word that is not text is not an option
    let args = [Arg { text: "--seed".into(), exact: false }];
    assert_eq!(parse_cli(&args).unwrap().options, 0);
    assert!(matches!(parse_quantum("7..7"), Ok((7, 7))));
    assert!(matches!(parse_switch_cost("1us"), Ok(1_000)));
    assert!(matches!(parse_stop_after("1"), Ok(1)));
}

#[test]
fn the_command_line_is_laid_over_the_run_file() {
    let c = cli(&["--seed", "7"]).unwrap();
    let s = with_run_file_settings(c.settings, &run_file()).unwrap();
    assert_eq!((s.opts.seed, s.quantum), (7, (10, 20)));
    assert_eq!((s.net_latency_ns, s.wall_limit_ms), (5_000_000, 2_000));
    let mut bad = run_file();
    bad.heap_size = Some("huge".into());
    let e = with_run_file_settings(Settings::default(), &bad).err().unwrap();
    assert!(matches!(&e, settings::Error::HeapSize(v) if v == "huge"));
    assert!(replayable(&s));
    assert!(!replayable(&cli(&["--aslr"]).unwrap().settings));
    assert_eq!(
        replay_arguments(&s),
        [
            "--seed", "7", "--quantum", "10..20", "--mem-hook-rate", "0/1", "--net-latency",
            "5000000ns", "--switch-cost", "10000ns", "--heap-size", "34359738368",
        ]
    );
}

fn fields(v: Vec<(&str, Node)>) -> Node {
    Node::Fields(v.into_iter().map(|(k, n)| (k.to_string(), n)).collect())
}

fn text(s: &str) -> Node {
    Node::Text(s.to_string())
}

fn hosts(name: &str, processes: Node) -> Node {
    fields(vec![(
        "hosts",
        Node::List(vec![fields(vec![("name", text(name)), ("processes", processes)])]),
    )])
}

#[test]
fn run_files_that_are_wrong() {
    let line = || Node::List(vec![text("srv --port 80")]);
    let m = manifest::parse(&hosts("alpha", line())).unwrap();
    assert_eq!(m.processes[0].argv, ["srv", "--port", "80"]);
    assert!(matches!(
        manifest::parse(&Node::Null).err().unwrap(),
        manifest::Error::Wrong(_)
    ));
    assert!(matches!(
        manifest::parse(&fields(vec![("sed", Node::Int(7))])).err().unwrap(),
        manifest::Error::Unknown(k, _) if k == "sed"
    ));
    assert!(matches!(
        manifest::parse(&fields(vec![("seed", Node::Int(7))])).err().unwrap(),
        manifest::Error::Missing(k) if k == "hosts"
    ));
    assert!(matches!(
        manifest::parse(&hosts("Not a name", line())).err().unwrap(),
        manifest::Error::HostName(_)
    ));
    assert!(matches!(
        manifest::parse(&hosts("alpha", Node::List(Vec::new()))).err().unwrap(),
        manifest::Error::NoProcesses
    ));
    assert!(matches!(
        manifest::parse(&hosts("alpha", Node::List(vec![text("  ")]))).err().unwrap(),
        manifest::Error::NoProgram(_)
    ));
    let twice = fields(vec![("seed", Node::Int(1)), ("seed", Node::Int(2))]);
    assert!(manifest::parse(&twice).is_err());
}

fn coordinator(faults: &[Faults]) -> Coordinator {
    let mut c = Coordinator::new(7, (10, 20));
    c.add_host(b"alpha");
    for (i, f) in faults.iter().enumerate() {
        assert_eq!(c.register(0, *f, i as u32), i as u32);
    }
    c
}

#[test]
fn a_supervised_run_to_its_end() {
    let c = coordinator(&[Faults::default(), Faults::default()]);
    let mut s = Supervision::new(vec![false, true], Some(c));
    s.started(0, 0, 500, false, None);
    s.started(1, 1, 501, false, None);
    assert!(s.any_running());
    assert!(!s.only_daemons_left());
    assert_eq!(s.settle().next, Next::Wait);
    s.take_report(0, "hooks=4\n".into());
    s.exited(0, 0, Some(0));
    assert!(s.only_daemons_left());
    // The daemon is killed where it stands
    assert_eq!(s.settle().next, Next::End);
    assert_eq!(s.survivors(), [(1, 501, true)]);
    s.reaped(1, SIGKILL);
    s.end_run();
    assert!(!s.any_running());
    let mut daemon = guest(RESTART_NEVER);
    daemon.daemon = true;
    let o = s.finish(&vec![guest(RESTART_NEVER), daemon], false);
    assert_eq!((o.initial, o.deadlock), (2, false));
    assert_eq!(o.specs, [Some(0), Some(1)]);
    assert_eq!(o.guests[0].exit_code(), Some(0));
    assert_eq!(o.guests[0].report.get_u64("hooks"), Some(4));
    assert_eq!(o.guests[0].report.get("switches").map(String::as_str), Some("0"));
    assert_eq!(o.guests[1].signal(), Some(SIGKILL));
    assert_eq!(exit_from_run(&o), Exit::Code(0));
}

#[test]
fn a_restarted_guest_gets_another_life() {
    let again = Faults {
        restart: RESTART_ALWAYS,
        restarts_left: 1,
        ..Faults::default()
    };
    let c = coordinator(&[again, Faults::default()]);
    let mut s = Supervision::new(vec![false, false], Some(c));
    s.started(0, 0, 500, false, None);
    s.started(1, 1, 501, false, None);
    s.exited(0, 1 << 8, Some(1 << 8));
    let step = s.settle();
    assert_eq!(step.next, Next::Spawn { spec_index: 0, index: 2 });
    s.started(2, 0, 502, false, None);
    s.exited(2, 0, Some(0));
    // Its only restart is used up
    assert_eq!(s.settle().next, Next::Again);
    s.exited(1, 0, Some(0));
    s.settle();
    assert!(!s.any_running());
    let o = s.finish(&vec![guest(RESTART_ALWAYS), guest(RESTART_NEVER)], false);
    assert_eq!(o.specs, [Some(0), Some(1), Some(0)]);
    assert_eq!(o.totals.counts.restarts, 1);
    assert_eq!(exit_from_run(&o), Exit::Code(0));
}

#[test]
fn children_and_passive_runs() {
    let mut s = Supervision::new(vec![false], None);
    s.started(0, 0, 500, true, Some(2 << 8));
    s.child_started(2, 777, false);
    assert_eq!(s.procs.len(), 3);
    // The one in between was never heard of
    assert_eq!(s.procs[1].status, Some(0));
    assert_eq!(s.settle().next, Next::Again);
    assert_eq!(s.settle().next, Next::Wait);
    assert_eq!(s.survivors(), [(2, 777, false)]);
    s.exited(2, 0, None);
    let o = s.finish(&vec![guest(RESTART_NEVER)], true);
    assert_eq!(o.guests[0].exit_code(), Some(2));
    assert!(o.wall_limited);
    assert_eq!(o.totals.counts.switches, 0);
}

#[test]
fn a_run_stops_at_its_time_and_deaths_are_dated_once() {
    let mut c = coordinator(&[Faults::default(), Faults::default()]);
    c.set_stop_at(5_000_000);
    c.set_net_latency(1_000);
    // The seed picks who is first
    assert_eq!(c.start(), Some(1));
    assert!(!c.stop_when_over());
    c.state.clock_ns = 2_000_000;
    let d = c.process_died(1, 0);
    assert!(!d.deadlock);
    assert_eq!(d.wake, Some(0));
    let died = c.totals().died_at[1];
    assert!(died >= 2_000_000);
    c.state.clock_ns = 6_000_000;
    c.note_last_death(1);
    assert_eq!(c.totals().died_at[1], died);
    assert!(c.stop_when_over());
    let t = c.totals();
    assert_eq!(t.stopped_at, 5_000_000);
    assert_eq!(t.stopped, [true, false]);
    assert!(!c.waits_for(&vec![true, true]));
    assert!(c.waits_for(&vec![false, true]));
}

#[test]
fn a_run_is_stopped_at_the_time_it_has_reached() {
    let mut c = coordinator(&[Faults::default()]);
    assert!(!c.stop_when_over());
    c.state.clock_ns = 700;
    c.stop_now();
    assert!(c.stop_when_over());
    let t = c.totals();
    assert_eq!((t.stopped_at, t.stopped), (700, vec![true]));
}
