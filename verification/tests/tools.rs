use derp::bisect::{self, in_interval, measure, replacement_seed, Order, Probe, Search};
use derp::ddmin::{Ddmin, Key, Stage};
use derp::keys::{self, Program};
use derp::replay::{job_count, share_of, timeout_after, trace_lines, Ending, Replay};
use derp::sites::{sites_from_text, sites_to_text, Site, SiteKind};
use derp::suspects::{
    self, failure_of, fails_with, located, needed_sites, suspects_of, Hunt, Phase,
};

const REPORT: &str = "\
run.processes=3
run.failure=entry 1: signal 6
run.failure_at=123456
run.schedule_hash=00ff
p0.status=exit 0
p0.entry=0
p1.status=exit 3
p1.entry=1
p2.status=signal 6
p2.entry=1
p2.program=/bin/server
p2.image=/cache/server.rw4-x
some other line
";

#[test]
fn how_a_run_ended() {
    let e = Ending::parse(REPORT);
    assert!(matches!(&e.failure, Some((1, s)) if s == "signal 6"));
    assert_eq!((e.failure_at, e.schedule_hash.as_str()), (123_456, "00ff"));
    assert_eq!(e.programs, [("p2".to_string(), "/bin/server".to_string())]);
    assert_eq!(e.images, [("p2".to_string(), "/cache/server.rw4-x".to_string())]);
    // The highest process of an entry is its last life
    assert_eq!(e.last_status(1).unwrap(), "signal 6");
    assert_eq!(e.last_status(0).unwrap(), "exit 0");
    assert!(e.last_status(2).is_none());
    assert_eq!(
        e.files_of(1),
        Some(("/bin/server".to_string(), "/cache/server.rw4-x".to_string()))
    );
    assert_eq!(e.files_of(0), None);
    assert!(e.fails_like(&e));
    let other = Ending::parse("p7.status=exit 3\np7.entry=1\n");
    assert!(!other.fails_like(&e));
    assert!(!e.fails_like(&other));
    assert_eq!(failure_of(&e).unwrap(), "entry 1: signal 6");
    assert!(failure_of(&other).is_none());
    assert!(fails_with(&e, "entry 1: signal 6"));
    assert!(!fails_with(&other, "entry 1: signal 6"));
    assert!(Ending::new().failure.is_none());
}

#[test]
fn replays_are_spelled_out_at_one_length() {
    let r = Replay {
        manifest: "/m/run.yaml".into(),
        dir: "/tmp/bisect".into(),
        pass: vec!["--seed".into(), "7".into()],
    };
    assert_eq!(r.trace_path(3).len(), r.trace_path(42).len());
    assert_eq!(r.mask_path(3).len(), r.mask_path(42).len());
    assert!(r.trace_path(3).starts_with("/tmp/bisect/"));
    let args = r.arguments(3, &vec!["--reseed".into(), "9".into()]);
    assert_eq!(args[0], "run");
    assert!(args.windows(2).any(|w| w[0] == "--manifest" && w[1] == "/m/run.yaml"));
    assert!(args.windows(2).any(|w| w[0] == "--seed" && w[1] == "7"));
    assert!(args.windows(2).any(|w| w[0] == "--reseed" && w[1] == "9"));
    assert!(args.iter().any(|a| a == "--capture"));
}

#[test]
fn every_run_goes_to_one_job() {
    assert_eq!(job_count(0), 1);
    assert_eq!((job_count(4), job_count(200)), (4, 98));
    assert_eq!(share_of(0, 3, 7), [0, 3, 6]);
    assert_eq!(share_of(1, 3, 7), [1, 4]);
    assert_eq!(share_of(2, 3, 7), [2, 5]);
    assert!(share_of(2, 3, 2).is_empty());
    assert_eq!((timeout_after(100), timeout_after(1_000)), (10_000, 20_000));
}

#[test]
fn traces_are_read_by_their_clock() {
    let trace = "p0 t0 site=0x10 clock=500\nnonsense\np1 t0 site=0x20 clock=900\n";
    let lines = trace_lines(trace);
    assert_eq!(lines.len(), 2);
    assert_eq!((lines[0].0, lines[1].0), (500, 900));
    assert_eq!(in_interval(&lines, 600, 900), ["p1 t0 site=0x20 clock=900"]);
    assert!(in_interval(&lines, 901, 2000).is_empty());
}

fn reference() -> Ending {
    Ending::parse(
        "run.failure=entry 0: signal 6\nrun.failure_at=1000000000\n\
         p0.status=signal 6\np0.entry=0\n",
    )
}

fn ending(fails: bool) -> Ending {
    Ending::parse(if fails {
        "run.failure=entry 0: signal 6\np0.status=signal 6\np0.entry=0\n"
    } else {
        "p0.status=exit 0\np0.entry=0\n"
    })
}

#[test]
fn bisection_finds_the_step() {
    let mut s = Search::start(7, 8, 2_000_000, &reference()).unwrap();
    let step = 400_000_000;
    let mut orders = Vec::new();
    while let Some(order) = s.next() {
        let endings = (0..order.runs).map(|_| ending(order.at_ns >= step)).collect();
        let p = measure(&order, &reference(), &endings);
        assert_eq!((p.at_ns, p.runs), (order.at_ns, order.runs));
        s.take(p).unwrap();
        orders.push(order);
        assert!(orders.len() < 100);
    }
    assert_eq!(orders[0].at_ns, 0);
    assert!(s.numbers.lo_ns < step && step <= s.numbers.hi_ns);
    assert!(s.numbers.hi_ns - s.numbers.lo_ns <= 2_000_000);
    assert!(!s.numbers.unsure);
    assert_eq!(s.probes.len() + 1, orders.len());
    assert_eq!(
        s.lines[0],
        "reference: seed 7 fails (entry 0: signal 6) at 1000.000 ms"
    );
    assert_eq!(
        s.lines[1],
        "base rate: 0 of 8 futures from the start fail the same way"
    );
    assert_eq!(
        s.lines[2],
        "probe   998.000 ms:   8 of 8 fail  decided by then"
    );
    // Every future of every probe gets a seed of its own
    let a = replacement_seed(&orders[0], 0);
    assert_ne!(a, replacement_seed(&orders[0], 1));
    assert_ne!(a, replacement_seed(&orders[1], 0));
    assert_eq!(a, replacement_seed(&orders[0], 0));
}

#[test]
fn a_measurement_counts_by_how_runs_ended() {
    let order = Order { at_ns: 5, runs: 3, round: 0 };
    let aborted = Ending::parse("run.failure=entry 0: exit 1\np0.status=exit 1\np0.entry=0\n");
    let p = measure(&order, &reference(), &vec![ending(true), ending(false), aborted]);
    assert_eq!(p, Probe { at_ns: 5, runs: 3, failed: 1, otherwise: 1 });
}

#[test]
fn bisection_says_why_it_cannot() {
    let e = Search::start(7, 0, 1, &reference()).err().unwrap();
    assert!(matches!(e, bisect::Error::NoFutures));
    assert_eq!(e.message(), "--runs 0: a probe needs futures");
    let e = Search::start(7, 8, 1, &Ending::new()).err().unwrap();
    assert!(matches!(e, bisect::Error::DoesNotFail(7)));
    assert!(e.message().starts_with("seed 7 does not fail"));
    let mut timeless = reference();
    timeless.failure_at = 0;
    let e = Search::start(7, 8, 1, &timeless).err().unwrap();
    assert!(matches!(e, bisect::Error::NoTime));
    let mut s = Search::start(7, 10, 1, &reference()).unwrap();
    let order = s.next().unwrap();
    let all = Probe { at_ns: order.at_ns, runs: order.runs, failed: 8, otherwise: 0 };
    let e = s.take(all).err().unwrap();
    assert!(matches!(e, bisect::Error::Hopeless(8, 10)));
    assert!(e
        .message()
        .starts_with("8 of 10 futures fail even when reseeded at the start"));
}

fn minimise(all: Vec<Key>, needed: &[Key]) -> (Vec<Key>, usize) {
    let mut d = Ddmin::new(all);
    let mut runs = 0;
    while d.stage != Stage::Done {
        let tests = d.tests();
        runs += tests.len();
        let results = tests
            .iter()
            .map(|set| needed.iter().all(|k| set.contains(k)))
            .collect();
        d.take(&results);
        assert!(runs < 10_000);
    }
    (d.current, runs)
}

#[test]
fn minimisation_keeps_what_is_needed_and_no_more() {
    let all: Vec<Key> = (0..20).map(|i| (0, 100 + i)).collect();
    let (left, _) = minimise(all.clone(), &[(0, 103), (0, 117)]);
    assert_eq!(left, [(0, 103), (0, 117)]);
    assert_eq!(minimise(all.clone(), &[(0, 100)]).0, [(0, 100)]);
    assert_eq!(minimise(all.clone(), &all).0, all);
    assert_eq!(minimise(vec![(0, 1)], &[(0, 1)]).0, [(0, 1)]);
}

fn programs() -> Vec<Program> {
    let site = |yield_pc, kind| Site { yield_pc, addr: yield_pc + 0x1000, kind };
    vec![
        Program {
            name: "server".into(),
            original: "/bin/server".into(),
            sites: vec![
                site(0x10, SiteKind::Load),
                site(0x20, SiteKind::Store),
                site(0x30, SiteKind::Branch),
            ],
        },
        Program {
            name: "client".into(),
            original: "/bin/client".into(),
            sites: vec![site(0x10, SiteKind::Load), site(0x40, SiteKind::Call)],
        },
    ]
}

#[test]
fn sites_of_programs() {
    let p = programs();
    let memory = keys::of_kind(&p, true);
    let branches = keys::of_kind(&p, false);
    assert_eq!(memory, [(0, 0x10), (0, 0x20), (1, 0x10)]);
    assert_eq!(branches, [(0, 0x30), (1, 0x40)]);
    let all = keys::union(&memory, &branches);
    assert_eq!(all.len(), 5);
    assert!(keys::holds(&all, (1, 0x40)));
    assert!(!keys::holds(&memory, (1, 0x40)));
    assert_eq!(
        keys::mask_for(&memory, &p, &vec![(0, 0x20)]),
        "server 10\nclient 10\n"
    );
    let mut v = keys::copy(&memory);
    keys::put_key(&mut v, (0, 0x10));
    assert_eq!(v, memory);
    let report = "p0.entry=0\np3.entry=1\n";
    let trace = "p3 x site=0x10\np0 x site=0x20\np3 y site=0x10\np0 site=0x999\np9 site=0x10\n";
    assert_eq!(keys::switched_at(report, trace, &memory), [(1, 0x10), (0, 0x20)]);
}

#[test]
fn site_tables_read_back() {
    let sites = &programs()[0].sites;
    let text = sites_to_text(sites);
    assert_eq!(&sites_from_text(&text), sites);
    for kind in [
        SiteKind::Branch,
        SiteKind::Call,
        SiteKind::Load,
        SiteKind::Store,
        SiteKind::Counter,
    ] {
        assert_eq!(SiteKind::from_name(kind.name()), Some(kind));
    }
    assert_eq!(SiteKind::from_name("loads"), None);
}

const SWITCHES: &str = "p0 site=0x10\np0 site=0x20\np1 site=0x10\n";

fn hunt(needed: &[Key]) -> Hunt {
    let p = programs();
    let report = "p0.entry=0\np1.entry=1\n";
    let mut h = Hunt::start(7, &p, Some("entry 0: signal 6".into()), report, SWITCHES).unwrap();
    for _ in 0..100 {
        if h.phase == Phase::Done {
            break;
        }
        if h.phase == Phase::Trace {
            assert_eq!(h.trace_mask(&p), "server 10\nserver 20\nclient 10\n");
            h.take_trace(&p, report, "p0 site=0x30\np1 site=0x40\n");
            continue;
        }
        let results = h
            .tests()
            .iter()
            .map(|set| needed.iter().all(|k| set.contains(k)))
            .collect();
        h.take(&p, &results).unwrap();
    }
    h
}

#[test]
fn suspects_are_the_sites_a_failure_needs() {
    let h = hunt(&[(0, 0x20)]);
    assert_eq!(h.phase, Phase::Done);
    assert_eq!(h.search.current, [(0, 0x20)]);
    assert_eq!(
        h.lines[0],
        "reference: seed 7 fails (entry 0: signal 6); it switched at 3 of 3 hooked loads and stores"
    );
    // Without any load or store: the branches are tried
    let h = hunt(&[]);
    assert_eq!(h.phase, Phase::Done);
    assert!(h.search.current.is_empty());
    assert!(h
        .lines
        .iter()
        .any(|l| l == "it fails with no switch at any hooked instruction: blocking calls are enough"));
}

#[test]
fn suspects_are_named_and_located() {
    let p = programs();
    let minimal = vec![(0, 0x20), (1, 0x10)];
    let needed = needed_sites(&p, 0, &minimal);
    assert_eq!(needed, [p[0].sites[1]]);
    let at = located("main (server.c:12)\n", &needed);
    assert_eq!(at, ["main (server.c:12)"]);
    let bare = located("", &needed_sites(&p, 1, &minimal));
    assert_eq!(bare, ["0x1010"]);
    let found = suspects_of(&p, &minimal, &vec![at, bare]);
    assert_eq!(found.len(), 2);
    assert_eq!((found[0].program.as_str(), found[0].addr), ("server", 0x1020));
    assert_eq!(found[0].kind, SiteKind::Store);
    assert_eq!(found[1].location, "0x1010");
}

#[test]
fn a_hunt_says_why_it_cannot() {
    let p = programs();
    let e = Hunt::start(7, &p, None, "", "").err().unwrap();
    assert_eq!(e, suspects::Error::Passes(7));
    assert_eq!(e.message(), "seed 7 does not fail: nothing to minimise");
    let report = "p0.entry=0\np1.entry=1\n";
    let mut h = Hunt::start(7, &p, Some("x".into()), report, SWITCHES).unwrap();
    let n = h.tests().len();
    let e = h.take(&p, &vec![false; n]).err().unwrap();
    assert_eq!(e, suspects::Error::Outside);
    let mut h = Hunt::start(7, &p, Some("x".into()), report, SWITCHES).unwrap();
    h.take(&p, &vec![true; n]).unwrap();
    assert_eq!(h.phase, Phase::Trace);
    h.take_trace(&p, report, "");
    let n = h.tests().len();
    let e = h.take(&p, &vec![false; n]).err().unwrap();
    assert_eq!(e, suspects::Error::Unused);
}
