use derp::determinism::{
    clock_ns, counter_ticks, mach_ticks, timespec, timeval, timeval_ns, Alarm, Entropy, RandomFds,
    MAX_ENTROPY, MONOTONIC_BASE_NS, REALTIME_BASE_NS,
};
use derp::environ::{external_objects, run_env, Object};
use derp::errno::Errno;
use derp::files::{
    flock_plan, record_lock, run_pshm_name, Flock, Locked, SharedNames, LOCK_NB, LOCK_UN,
};
use derp::gcd;
use derp::hostfs::{self, relative_to_descriptor, Policy, MAX_LOGGED};
use derp::interpose::{
    cond_deadline, cond_result, dispatch_timeout_ns, futex_deadline, join_key, sleep_deadline,
    timespec_unsigned, ulock_is_unfair, ulock_is_wide, unfair_wait, value_matches, wake_result,
    Ports, Unfair, DISPATCH_TIME_FOREVER,
};
use derp::io::{
    self, closing, gather, ident_of, is_guest_object, is_managed, put_over, scatter, Changed,
    Closing, Onward, Stat, Then, Vectored, Writing, Wrote,
};
use derp::launch::Report;
use derp::process::{
    child_env, guest_env, in_range, search_path, thread_id, Inherit, DEFAULT_PATH,
};
use derp::sched::{
    death_wait, exit_wait, expired, heap_report, hook_event, identity, in_window, log_line,
    process_seed, report, reseed_once, teardown, timespec_ns, trace_stray, trace_switch,
    trace_window, whose, Act, After, Config, DeathWait, Expiry, Facts, Hooks, State,
    EXIT_PATIENCE_NS, HEAP_SIZE, PATIENCE,
};
use derp::shared::{Handoff, COORD_FD};
use derp::signals::{
    take, Action, Child, Kept, Pending, Run, SA_RESETHAND, SA_RESTART, SA_SIGINFO, SIG_DFL, SIG_IGN,
};
use derp::stubdata::Info;
use derp::vmmap::{
    in_region, mapping, placed_flags, places, round_up, Mapping, Region, BASE, MAP_FIXED, PAGE,
    SIZE, VM_FLAGS_ANYWHERE, VM_FLAGS_OVERWRITE,
};

#[test]
fn entropy_is_the_seeds() {
    let mut a = Entropy::new(7);
    let mut b = Entropy::new(7);
    let bytes = a.fill(20);
    assert_eq!(bytes.len(), 20);
    assert_eq!(bytes, b.fill(20));
    assert_eq!(a.number(), b.number());
    assert_ne!(Entropy::new(8).fill(20), bytes);
    for _ in 0..100 {
        assert!(a.uniform(10) < 10);
    }
    assert_eq!(a.uniform(0), 0);
    assert_eq!(a.get(MAX_ENTROPY).map(|v| v.len()), Some(MAX_ENTROPY));
    assert_eq!(a.get(MAX_ENTROPY + 1), None);
    // A reseeded stream is another one, once
    let mut c = Entropy::new(7);
    c.reseed(Some(99));
    let first = c.fill(8);
    assert_ne!(first, Entropy::new(7).fill(8));
    c.reseed(Some(99));
    assert_ne!(c.fill(8), first);
    let mut d = Entropy::new(7);
    d.reseed(None);
    assert_eq!(d.fill(8), Entropy::new(7).fill(8));
}

#[test]
fn clocks_count_virtual_time() {
    assert_eq!(clock_ns(true, 5), REALTIME_BASE_NS + 5);
    assert_eq!(clock_ns(false, 5), MONOTONIC_BASE_NS + 5);
    assert_eq!(timespec(1_500_000_000), (1, 500_000_000));
    assert_eq!(timeval(1_500_000_999), (1, 500_000));
    assert_eq!(timeval_ns(1, 500_000), 1_500_000_000);
    assert_eq!(counter_ticks(1_000_000_000, 24_000_000), 24_000_000);
    assert_eq!(counter_ticks(1_500_000_000, 24_000_000), 36_000_000);
    assert_eq!(mach_ticks(125), 3);
    assert_eq!(timespec_ns(2, 3), 2_000_000_003);
    assert_eq!(timespec_ns(-1, -5), 0);
    assert_eq!(timespec_ns(i64::MAX, 0), u64::MAX);
}

#[test]
fn a_timer_counts_down() {
    let mut a = Alarm::new();
    assert_eq!(a.get(100), (0, 0));
    assert_eq!(a.set(100, 50_000, 7), (0, 0));
    assert_eq!(a.get(100), (50_000, 7));
    assert_eq!(a.get(130), (49_970, 7));
    // Rounded up: a whole second is left
    assert_eq!(a.alarm(130, 2), 1);
    assert_eq!(a.get(130), (2_000_000_000, 0));
    assert_eq!(a.alarm(130, 0), 2);
    assert_eq!(a.get(130), (0, 0));
}

#[test]
fn random_devices_are_followed() {
    let mut r = RandomFds::new();
    r.opened(b"/dev/urandom", 5);
    r.opened(b"/dev/null", 6);
    r.opened(b"/dev/random", 7);
    assert!(r.holds(5) && !r.holds(6) && r.holds(7));
    r.duplicated(5, 9);
    r.duplicated(6, 10);
    assert!(r.holds(9) && !r.holds(10));
    r.closed(5);
    assert!(!r.holds(5) && r.holds(9));
}

#[test]
fn stretches_of_the_region() {
    let mut r = Region::new();
    let a = r.take(PAGE).unwrap();
    let b = r.take(3 * PAGE).unwrap();
    assert_eq!((a, b), (BASE, BASE + PAGE));
    r.give_back(b, 3 * PAGE, true);
    assert_eq!(r.take(PAGE), Some(b));
    assert_eq!(r.take(2 * PAGE), Some(b + PAGE));
    assert_eq!(r.take(PAGE), Some(BASE + 4 * PAGE));
    r.give_back(a, PAGE, false);
    assert_eq!(r.take(PAGE), Some(BASE + 5 * PAGE));
    assert_eq!(r.take(SIZE), None);
    assert_eq!(r.overflowed(), 1);
    assert_eq!(round_up(PAGE + 1), 2 * PAGE);
    assert!(in_region(BASE) && !in_region(BASE + SIZE));
    assert!(places(true, VM_FLAGS_ANYWHERE, 0));
    assert!(!places(false, VM_FLAGS_ANYWHERE, 0));
    assert!(!places(true, 0, 0));
    assert!(!places(true, VM_FLAGS_ANYWHERE, PAGE));
    assert_eq!(placed_flags(VM_FLAGS_ANYWHERE | 2), VM_FLAGS_OVERWRITE | 2);
    assert_eq!(mapping(0, 2), Mapping::Region { hinted: false });
    assert_eq!(mapping(0x1000, 2), Mapping::Region { hinted: true });
    assert_eq!(mapping(0x1000, 2 | MAP_FIXED), Mapping::Kernel);
}

#[test]
fn dispatch_is_refused_by_name() {
    let said = gcd::refusal(true, false, 0).unwrap();
    assert!(said.contains("dispatch_async"));
    assert!(gcd::refusal(true, false, 13).unwrap().contains("dispatch_main"));
    assert_eq!(gcd::refusal(true, true, 0), None);
    assert_eq!(gcd::refusal(false, false, 0), None);
    assert_eq!(gcd::EX_UNAVAILABLE, 69);
}

#[test]
fn locks_on_files() {
    assert_eq!(flock_plan(LOCK_UN), Flock::Unlock);
    assert_eq!(flock_plan(2 | LOCK_NB), Flock::Once);
    assert_eq!(flock_plan(2), Flock::Retry(2 | LOCK_NB));
    let locked = |wake, park| Locked { wake, park };
    assert_eq!(record_lock(true, false, true, true), locked(true, false));
    assert_eq!(record_lock(true, false, false, true), locked(false, false));
    assert_eq!(record_lock(false, true, false, true), locked(false, true));
    assert_eq!(record_lock(false, true, false, false), locked(false, false));
    assert_eq!(record_lock(false, false, false, true), locked(false, false));
}

#[test]
fn shared_memory_names_are_the_runs() {
    assert_eq!(run_pshm_name(b"/queue", 0x1_ABCD).unwrap(), b"/rabcdqueue");
    assert_eq!(run_pshm_name(b"queue", 5).unwrap(), b"/r0005queue");
    assert_eq!(run_pshm_name(&[b'x'; 25], 5).map(|n| n.len()), Some(31));
    assert_eq!(run_pshm_name(&[b'x'; 26], 5), None);
    let mut kept = SharedNames::new(2);
    kept.note(b"/r0005queue");
    kept.note(&[b'x'; 32]);
    kept.note(&[b'x'; 31]);
    kept.note(b"/r0005late");
    assert_eq!(kept.names, [b"/r0005queue".to_vec(), vec![b'x'; 31]]);
}

#[test]
fn the_measures_of_a_run_are_told() {
    let told = run_env((10_000, 1_000_000), 64 << 20);
    let want = [
        ("REWRITE_QUANTUM", "0000010000..0001000000"),
        ("REWRITE_HEAP", "0000000004000000"),
    ];
    assert_eq!(told, want.map(|(k, v)| (k.to_string(), v.to_string())));
}

#[test]
fn child_signals_are_the_runs() {
    let ours = 0x7777;
    let mut k = Kept::new();
    let kernel = Action { handler: SIG_DFL, flags: 0 };
    assert_eq!(k.told(kernel), kernel);
    let guest = Action::simple(0x1234);
    assert_eq!(guest.flags, SA_RESTART);
    assert_eq!(
        k.install(&guest, ours),
        Action { handler: ours, flags: SA_RESTART | SA_SIGINFO }
    );
    k.installed(&guest, false);
    assert_eq!(k.told(kernel), kernel);
    k.installed(&guest, true);
    assert_eq!(k.told(kernel), guest);
    let child = Child { pid: 100_003, status: 256 };
    let run = Run { action: guest, info: None, reset: false };
    assert_eq!(k.delivered(5, 5, child), Some(run));
    assert_eq!(k.delivered(5, 0, child), None);
    assert_eq!(k.told(kernel), guest);
    // One that asks for the details and is called once
    let once = Action { handler: 0x1234, flags: SA_SIGINFO | SA_RESETHAND };
    assert_eq!(k.install(&once, ours), Action { handler: ours, flags: SA_SIGINFO });
    k.installed(&once, true);
    assert_eq!(k.delivered(5, 0, child), None);
    let run = Run { action: once, info: Some(child), reset: true };
    assert_eq!(k.delivered(5, 5, child), Some(run));
    assert_eq!(k.delivered(5, 5, child), None);
    assert_eq!(k.told(kernel), kernel);
    let ignore = Action { handler: SIG_IGN, flags: 0 };
    assert_eq!(k.install(&ignore, ours), ignore);
    k.installed(&ignore, true);
    assert_eq!(k.delivered(5, 5, child), None);
}

#[test]
fn external_objects_read_back() {
    let none = Object { pipe: false, dev: 9, ino: 9 };
    let out = Object { pipe: true, dev: 16_777_230, ino: 42 };
    let odd = Object { pipe: true, dev: -5, ino: u64::MAX };
    let list = external_objects(none, out, odd);
    let known = io::external(&list);
    assert_eq!(known, [(16_777_230, 42), (-5, u64::MAX)]);
    assert_eq!(io::external("1:2,x,3:,4"), [(1, 2)]);
    let pipe = Stat { fifo: true, socket: false, dev: 1, ino: 2 };
    let ours = Stat { ino: 42, dev: 16_777_230, ..pipe };
    let file = Stat { fifo: false, ..pipe };
    assert!(is_guest_object(&pipe, &known));
    assert!(!is_guest_object(&ours, &known));
    assert!(!is_guest_object(&file, &known));
    assert!(is_managed(true, false, &pipe, &known));
    assert!(!is_managed(true, true, &pipe, &known));
    assert!(!is_managed(false, false, &pipe, &known));
}

#[test]
fn writes_go_on_until_all_is_written() {
    let mut w = Writing::new(10);
    assert!(!w.is_done());
    assert_eq!(w.step(Wrote::Bytes(4)), Then::Wake);
    assert_eq!(w.step(Wrote::Full), Then::Park);
    assert_eq!(w.step(Wrote::Interrupted), Then::Again);
    assert_eq!(w.step(Wrote::Bytes(6)), Then::Finish(10));
    assert!(w.is_done());
    let mut w = Writing::new(10);
    assert_eq!(w.step(Wrote::Failed(Errno::Pipe)), Then::Fail(Errno::Pipe));
    w.step(Wrote::Bytes(3));
    assert_eq!(w.step(Wrote::Failed(Errno::Pipe)), Then::Return(3));
    assert_eq!(w.step(Wrote::Bytes(0)), Then::Return(3));
}

#[test]
fn buffers_are_filled_in_turn() {
    let lens = vec![2, 0, 3];
    let parts = scatter(&[1, 2, 3, 4], &lens);
    assert_eq!(parts, [vec![1, 2], vec![], vec![3, 4]]);
    assert_eq!(gather(&parts), [1, 2, 3, 4]);
    let mut v = Vectored::new();
    assert_eq!(v.flags(), 0);
    assert_eq!(v.step(2, Ok(2)), Onward::Next);
    // With something read, the rest must not block
    assert_ne!(v.flags(), 0);
    assert_eq!(v.step(3, Ok(1)), Onward::Return(3));
    let mut v = Vectored::new();
    assert_eq!(v.step(2, Err(Errno::Again)), Onward::Fail(Errno::Again));
    v.step(2, Ok(2));
    assert_eq!(v.step(2, Err(Errno::Again)), Onward::Return(2));
}

#[test]
fn waits_on_words() {
    assert_eq!(join_key(3), 0x7FFF_0000_0003);
    assert!(ulock_is_wide(5) && ulock_is_wide(0x1_0006) && !ulock_is_wide(1));
    assert!(ulock_is_unfair(2) && ulock_is_unfair(4) && !ulock_is_unfair(1));
    assert!(value_matches(0x1_0000_0005, 5, false));
    assert!(!value_matches(0x1_0000_0005, 5, true));
    assert_eq!(futex_deadline(10, 0), None);
    assert_eq!(futex_deadline(10, 5), Some(15));
    assert_eq!(sleep_deadline(u64::MAX - 1, 5), u64::MAX);
    assert_eq!(timespec_unsigned(1, 2), 1_000_000_002);
    assert_eq!(timespec_unsigned(u64::MAX, 0), u64::MAX);
    assert_eq!(cond_deadline(1_800_000_001, 7), 1_000_000_007);
    assert_eq!(cond_deadline(1, 0), 0);
    assert_eq!(cond_result(None, true), None);
    assert_eq!(cond_result(None, false), Some(Errno::TimedOut));
    assert_eq!(cond_result(Some(Errno::Inval), true), Some(Errno::Inval));
}

#[test]
fn lock_owners_are_known_by_port() {
    let mut p = Ports::new();
    p.add(0x103, 4);
    p.add(0x200, 5);
    assert_eq!(p.count(), 2);
    assert_eq!(p.scheduled_thread(0x103), Some(4));
    // A lock word names its owner above two flag bits
    assert_eq!(p.unfair_owner(0x101), Some(4));
    assert_eq!(p.unfair_owner(0x203), Some(5));
    assert_eq!(p.unfair_owner(3), None);
    p.forget(0x103);
    assert_eq!(p.scheduled_thread(0x103), None);
    assert_eq!(p.unfair_owner(0x101), None);
    assert_eq!(unfair_wait(false, Some(1), false, true), Unfair::Kernel);
    assert_eq!(wake_result(0, -2), -2);
    assert_eq!(wake_result(2, -2), 0);
}

#[test]
fn dispatch_deadlines() {
    let wall = 1_900_000_000_000_000_000;
    assert_eq!(dispatch_timeout_ns(DISPATCH_TIME_FOREVER, 5, wall, 24), 0);
    // On the virtual clock: 300 ticks of 125/3 ns from its start
    let ticks = (1_000_000_000 + 5) * 3 / 125 + 300;
    let got = dispatch_timeout_ns(ticks, 5, wall, 1);
    assert!((1..=12_500).contains(&got));
    // Long past on both clocks: at once
    assert_eq!(dispatch_timeout_ns(1, 1_000_000_000, wall, 1_000_000_000), 1);
}

#[test]
fn environments_of_children() {
    let env = vec![
        b"A=1".to_vec(),
        b"REWRITE_PROC=4".to_vec(),
        b"REWRITE_PROCESS=4".to_vec(),
        b"DYLD_INSERT_LIBRARIES=x".to_vec(),
    ];
    assert_eq!(guest_env(&env), [b"A=1".to_vec(), b"REWRITE_PROCESS=4".to_vec()]);
    let alone = child_env(&env, &None, 7);
    assert_eq!(alone[..2], guest_env(&env)[..]);
    assert_eq!(alone[2..], [b"REWRITE_PROC=7".to_vec()]);
    let inherit = Inherit {
        dylib: "/d".into(),
        shared: "/s".into(),
        seed: "5".into(),
        external: "e".into(),
        host_root: "/h".into(),
        allow: "/o".into(),
    };
    let with = child_env(&env, &Some(inherit), 7);
    assert_eq!(with[..2], guest_env(&env)[..]);
    for entry in [
        "DYLD_INSERT_LIBRARIES=/d",
        "REWRITE_SHARED=/s",
        "REWRITE_SEED=5",
        "REWRITE_EXTERNAL=e",
        "REWRITE_PROC=7",
        "REWRITE_HOST_ROOT=/h",
        "REWRITE_ALLOW=/o",
    ] {
        assert!(with.iter().any(|e| e == entry.as_bytes()), "{entry}");
    }
    assert_eq!(thread_id(3), 1_000_000_003);
    assert!(in_range(10, 10, 5) && in_range(14, 10, 5) && !in_range(15, 10, 5));
    assert!(!in_range(9, 10, 5));
}

#[test]
fn programs_are_searched_for() {
    assert_eq!(search_path(b"/bin/sh", Some("/x")), None);
    assert_eq!(
        search_path(b"sh", Some("/x:/y")).unwrap(),
        [b"/x/sh".to_vec(), b"/y/sh".to_vec()]
    );
    assert_eq!(
        search_path(b"sh", None).unwrap(),
        [b"/usr/bin/sh".to_vec(), b"/bin/sh".to_vec()]
    );
    assert_eq!(DEFAULT_PATH, "/usr/bin:/bin");
}

#[test]
fn what_a_process_takes_from_its_environment() {
    let c = Config::from_env(Some("7"), Some("10..20"), Some("1000"));
    assert_eq!((c.seed, c.heap_size), (7, 0x1000));
    assert_eq!((c.quantum_lo, c.quantum_hi), (10, 20));
    let d = Config::from_env(None, Some("20..10"), Some("x"));
    assert_eq!((d.seed, d.heap_size), (0, HEAP_SIZE));
    assert_eq!((d.quantum_lo, d.quantum_hi), (1000, 10000));
    assert_eq!(process_seed(7, 0), 7);
    assert_eq!(process_seed(7, 1), 7 + 0x9E37_79B9_7F4A_7C15);
    let mut done = false;
    assert_eq!(reseed_once(&mut done, None, 1), None);
    assert_eq!(reseed_once(&mut done, Some(5), 1), Some(process_seed(5, 1)));
    assert_eq!(reseed_once(&mut done, Some(5), 1), None);
}

#[test]
fn an_identity_is_put_back_three_times() {
    let mut value = identity(41, 0);
    for round in 0..3 {
        assert_eq!(whose(value), Some(41));
        value = teardown(value).unwrap();
        assert_eq!(value, identity(41, round + 1));
    }
    assert_eq!(whose(value), Some(41));
    assert_eq!(teardown(value), None);
    assert_eq!(whose(0), None);
}

#[test]
fn hooks_are_counted() {
    let mut h = Hooks::new();
    h.install(100);
    h.settle(40);
    assert_eq!((h.total, h.last), (60, 40));
    h.settle(0);
    h.install(10);
    h.settle(0);
    assert_eq!(h.total, 110);
    assert_eq!(hook_event(2), (1, false));
    assert_eq!(hook_event(1), (0, true));
    assert_eq!(hook_event(0), (-1, false));
    assert_eq!(expired(true, true, true), Expiry::OneMore);
    assert_eq!(expired(false, true, false), Expiry::Yield { stray: true });
    assert_eq!(expired(false, true, true), Expiry::Yield { stray: false });
    assert_eq!(expired(false, false, true), Expiry::Renew);
}

#[test]
fn what_follows_a_handoff() {
    let after = |handoff, crashed_self| After {
        handoff,
        quantum: 50,
        issued: 0,
        clock: 0,
        crashed_self,
    };
    assert_eq!(after(Handoff::Idle, false).act(State::Runnable, false), Act::Wait);
    assert!(matches!(
        after(Handoff::Stay, false).act(State::Runnable, true),
        Act::Go { quantum: 50, .. }
    ));
    assert_eq!(
        after(Handoff::Switch { to: 3, seen: 9 }, false).act(State::Blocked(1), false),
        Act::Park { to: 3, seen: 9 }
    );
    assert_eq!(
        after(Handoff::Switch { to: 3, seen: 9 }, true).act(State::Runnable, false),
        Act::WakeAndDie { to: 3 }
    );
    assert_eq!(
        after(Handoff::Switch { to: 3, seen: 9 }, false).act(State::Exited, false),
        Act::WakeAndReturn { to: 3 }
    );
}

#[test]
fn traces_and_reports_of_a_process() {
    assert_eq!(
        trace_switch(1, 2, 3, 400, 0x1F, 5000),
        "p1 t2 -> t3 issued=400 site=0x1f clock=5000\n"
    );
    assert_eq!(report(&None), "supervisor=loaded\n");
    let facts = Facts {
        info: Some(Info { sites: 9, mem_sites: 2, seed: 7 }),
        hooks: -4,
        proc: 1,
        threads: 2,
        expiries: 3,
        switches: 4,
        schedule_hash: 0xAB,
        paths_refused: 0,
        outside_wakes: 0,
        first_outside_wake_ns: 0,
        outside_expiries: 0,
        stray_expiries: 0,
        exit_waits: 0,
        exit_wait_max_ns: 0,
        mappings_placed: 6,
        mappings_overflowed: 0,
        mappings_hinted: 0,
        io_waits: 8,
        counts: [1, 2, 3, 4, 5, 6, 7, 8, 9],
    };
    let text = report(&Some(facts));
    assert!(text.starts_with("supervisor=loaded\nseed=7\nsites=9\nmem_sites=2\nhooks=-4\nproc=1\n"));
    let back = Report::parse(&text);
    assert_eq!(back.get("schedule_hash").unwrap(), "00000000000000ab");
    assert_eq!(back.get_u64("io_waits"), Some(8));
    let counted = back.fields.iter().filter(|f| f.0.starts_with("interposed_"));
    assert_eq!(counted.count(), 9);
    let heap = Report::parse(&heap_report(true, 2, 64));
    assert!(!heap.fields.is_empty());
    let line = log_line(b"x");
    assert!(line.ends_with(b"x\n"));
}

#[test]
fn a_guest_is_held_to_its_host_and_what_is_allowed() {
    let mut p = Policy::new("/run/alpha", "/opt/content:/opt/more").unwrap();
    let here = b"/run/alpha/sub";
    assert_eq!(p.check(b"file", here, false), hostfs::Answer::Permitted);
    assert_eq!(p.check(b"../../beta/file", here, false), hostfs::Answer::Refused);
    assert_eq!(p.check(b"/opt/content/x", here, false), hostfs::Answer::Permitted);
    assert_eq!(p.check(b"/run/beta", here, false), hostfs::Answer::Refused);
    assert!(Policy::new("", "").is_none());
    assert!(p.refuse("open", b"/run/beta").unwrap().contains("/run/beta"));
    for _ in 1..MAX_LOGGED {
        assert!(p.refuse("open", b"/x").is_some());
    }
    assert!(p.refuse("open", b"/x").is_none());
    assert!(relative_to_descriptor(false, b"a"));
    assert!(!relative_to_descriptor(true, b"a"));
    assert!(!relative_to_descriptor(false, b"/a"));
}

#[test]
fn signals_wait_for_the_baton() {
    let mut process = Pending::new();
    let mut thread = Pending::new();
    process.send(15);
    process.send(20);
    thread.send(3);
    thread.send(15);
    let mut blocked = vec![false; 32];
    blocked[20] = true;
    assert_eq!(take(&mut process, &mut thread, &blocked), [3, 15]);
    assert!(take(&mut process, &mut thread, &blocked).is_empty());
    assert!(process.holds(20) && !process.holds(15) && !thread.holds(15));
    assert!(!process.holds(-1) && !process.holds(99));
    blocked[20] = false;
    assert_eq!(take(&mut process, &mut thread, &blocked), [20]);
}

#[test]
fn descriptors_are_closed_and_copied() {
    let none = Changed { held: None, dropped: None, wake: false };
    assert_eq!(closing(COORD_FD, true, None), Closing::Ignore);
    assert_eq!(closing(COORD_FD, false, None), Closing::Kernel);
    assert_eq!(closing(5, true, Some(9)), Closing::Virtual(9));
    assert_eq!(
        Closing::Virtual(9).after(true, true),
        Changed { dropped: Some(9), ..none }
    );
    assert_eq!(Closing::Virtual(9).after(false, true), none);
    assert_eq!(Closing::Kernel.after(true, true), Changed { wake: true, ..none });
    assert_eq!(Closing::Ignore.after(true, true), none);
    assert_eq!(
        put_over(4, 5, true, Some(1), Some(2)),
        Changed { held: Some(1), dropped: Some(2), wake: false }
    );
    assert_eq!(put_over(4, 4, true, Some(1), Some(1)), none);
    assert_eq!(put_over(4, 5, false, Some(1), Some(2)), none);
    let socket = Stat { fifo: false, socket: true, dev: -1, ino: 77 };
    assert_eq!(ident_of(&socket), Some(77));
    assert_eq!(ident_of(&Stat { dev: 1, ..socket }), None);
    assert_eq!(ident_of(&Stat { ino: 0, ..socket }), None);
}

#[test]
fn the_dead_are_waited_for() {
    assert_eq!(death_wait(true, 0), DeathWait::Go);
    assert_eq!(death_wait(false, 1024), DeathWait::Sleep { ask: true });
    assert_eq!(death_wait(false, 1025), DeathWait::Sleep { ask: false });
    assert_eq!(death_wait(false, PATIENCE + 1), DeathWait::GiveUp);
    assert!(exit_wait(true, EXIT_PATIENCE_NS) && !exit_wait(true, EXIT_PATIENCE_NS + 1));
    assert!(!exit_wait(false, 0));
    assert_eq!(trace_window("5..9"), Some((5, 9)));
    assert_eq!(trace_window("5.9"), None);
    assert!(in_window(Some((5, 9)), 9) && !in_window(Some((5, 9)), 10));
    assert!(!in_window(None, 5));
    assert_eq!(
        trace_stray(1, Some(2), 0x40),
        "p1 t2 expiry without the baton site=0x40\n"
    );
    assert_eq!(
        trace_stray(1, None, 0x40),
        "p1 outside expiry without the baton site=0x40\n"
    );
}
