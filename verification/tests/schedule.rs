use derp::sched;
use derp::shared::children::{Killed, Waited, SIGTERM};
use derp::shared::turns::Yielded;
use derp::shared::{
    is_virtual_pid, proc_of, vpid_of, Faults, Handoff, DEFAULT_SWITCH_NS, State, IO_KEY, NO_LIMIT, NO_PROC, P_EXITED,
    RESTART_ALWAYS, RESTART_ON_FAILURE, SLEEP_KEY, T_BLOCKED, T_EXITED, T_RUNNABLE, T_RUNNING,
    VPID_BASE,
};
use derp::signals::Pending;

/// Two processes with a thread each; thread 0 has the baton.
fn two() -> State {
    let mut s = State::new(7, 10, 20);
    s.add_host(b"alpha");
    for i in 0..2 {
        assert_eq!(s.add_proc(0, NO_PROC), i);
        let t = s.add_thread(i);
        assert!(s.attach(i, t, 0x1000 + i as u64, 500 + i as i32));
    }
    give_to(&mut s, 0);
    s
}

/// Hand the baton on until `id` has it.
fn give_to(s: &mut State, id: usize) {
    s.hand_off(None, 0);
    for _ in 0..100 {
        if s.current as usize == id {
            return;
        }
        let from = s.current as usize;
        s.hand_off(Some((from, T_RUNNABLE, 0)), 0);
    }
    panic!("thread {id} is never chosen");
}

#[test]
fn pids_of_the_run() {
    assert_eq!(vpid_of(3), VPID_BASE + 3);
    assert_eq!(proc_of(VPID_BASE + 3), Some(3));
    assert_eq!(proc_of(77), None);
    assert!(is_virtual_pid(VPID_BASE) && !is_virtual_pid(VPID_BASE - 1));
}

#[test]
fn the_schedule_is_the_seeds() {
    let run = |seed| {
        let mut s = State::new(seed, 10, 20);
        s.add_host(b"alpha");
        for i in 0..3 {
            s.add_proc(0, NO_PROC);
            s.add_thread(i);
        }
        s.hand_off(None, 0);
        let mut order = Vec::new();
        for _ in 0..50 {
            let from = s.current as usize;
            s.hand_off(Some((from, T_RUNNABLE, 0)), 0x40);
            order.push(s.current);
            assert!((10..=20).contains(&s.pending_quantum));
        }
        let running = s.threads.iter().filter(|t| t.state == T_RUNNING).count();
        assert_eq!(running, 1);
        (order, s.counts().schedule_hash)
    };
    assert_eq!(run(7), run(7));
    assert_ne!(run(7), run(8));
}

#[test]
fn sleepers_move_the_clock_when_nothing_else_can() {
    let mut s = two();
    // The other thread waits for ever
    s.threads[1].state = T_BLOCKED;
    s.threads[1].key = IO_KEY;
    let until = s.clock() + 5_000_000_000;
    let y = s.yield_baton(0, 0, sched::State::Blocked(SLEEP_KEY), 0, Some(until));
    assert!(matches!(y, Yielded::Given { after, .. } if after.handoff == Handoff::Stay));
    assert!(s.clock() >= until);
    assert!(s.take_timed_out(0));
    assert!(!s.take_timed_out(0));
    // Without a deadline nothing can run
    let y = s.yield_baton(0, 0, sched::State::Blocked(IO_KEY), 0, None);
    assert!(matches!(
        y,
        Yielded::Given { after, stuck: true } if after.handoff == Handoff::Idle
    ));
    let text = s.describe_blocked();
    assert!(text.contains("p0 t0: I/O") && text.contains("p1 t1: I/O"));
    s.wake_io();
    assert!(s.threads.iter().all(|t| t.state == T_RUNNABLE));
}

#[test]
fn waiters_are_woken_by_key_and_in_order() {
    let mut s = two();
    let a = s.add_thread(0);
    let b = s.add_thread(0);
    for id in [b, a] {
        s.cond_enqueue(id, 0x77);
        s.threads[id].state = T_BLOCKED;
        s.threads[id].key = 0x88;
    }
    // The first that was queued is the first signaled
    s.cond_wake(0, 0x77, false);
    assert_eq!(s.threads[b].state, T_RUNNABLE);
    assert_eq!(s.threads[a].state, T_BLOCKED);
    assert!(s.take_signaled(b, true));
    assert!(!s.take_signaled(a, false));
    assert_eq!(s.wake_all(0, 0x88), 1);
    assert_eq!(s.threads[a].state, T_RUNNABLE);
    assert_eq!(s.wake_all(1, 0x88), 0);
    s.threads[a].state = T_BLOCKED;
    s.cond_wake(0, 0x77, true);
    assert!(s.take_signaled(a, true));
    assert_eq!(s.threads_of(0), 3);
    assert_eq!(s.find_pthread(1, 0x1001), Some(1));
    assert_eq!(s.find_pthread(0, 0x1001), None);
    assert_eq!(s.own_thread(1), Some(1));
    assert_eq!(s.to_join(1, 0x1001), Some(1));
}

#[test]
fn a_wake_from_outside_is_seen() {
    let mut s = two();
    s.note_outside_wake(0);
    let y = s.yield_baton(0, 0, sched::State::Blocked(IO_KEY), 0, None);
    assert_eq!(y, Yielded::LookAgain);
    assert!(s.baton_is_mine(0));
    assert!(!s.baton_is_mine(1));
    let y = s.yield_baton(1, 1, sched::State::Runnable, 0, None);
    assert_eq!(y, Yielded::NotHeld);
}

#[test]
fn children_are_collected_once() {
    let mut s = two();
    assert_eq!(s.wait_for_child(0, -1, false), Waited::NoChild);
    assert_eq!(s.wait_for_child(0, 77, false), Waited::Kernel);
    let child = s.register_child(0);
    assert_eq!(child, 2);
    assert_eq!(s.parent_vpid(child), vpid_of(0));
    assert_eq!(s.wait_for_child(0, -1, true), Waited::Nothing);
    assert_eq!(s.wait_for_child(0, vpid_of(child), false), Waited::Park);
    assert_eq!(s.wait_for_child(1, vpid_of(child), false), Waited::NoChild);
    s.process_died(child, 0);
    assert_eq!(s.exited_child(0, None), Some(child));
    assert!(matches!(s.wait_for_child(0, -1, false), Waited::Found(2, _)));
    assert_eq!(s.wait_for_child(0, -1, false), Waited::NoChild);
    let other = s.register_child(0);
    s.unregister_child(other);
    assert!(s.has_exited(other));
    assert!(!s.has_child(0, None));
}

#[test]
fn an_exec_that_fails_changes_nothing() {
    let mut s = two();
    let a = s.add_thread(0);
    let before: Vec<u32> = s.threads.iter().map(|t| t.state).collect();
    let retired = s.retire_other_threads(0, 0);
    assert_eq!(retired, [(a, T_RUNNABLE)]);
    assert_eq!(s.threads[a].state, T_EXITED);
    s.restore_threads(&retired);
    let after: Vec<u32> = s.threads.iter().map(|t| t.state).collect();
    assert_eq!(before, after);
}

#[test]
fn signals_between_processes() {
    let mut s = two();
    assert_eq!(s.kill(0, 77, 9), Killed::Kernel);
    assert_eq!(s.kill(0, vpid_of(9), 9), Killed::NoProcess);
    assert_eq!(s.kill(0, vpid_of(0), 9), Killed::Own(500));
    assert_eq!(s.kill(0, vpid_of(1), 0), Killed::Exists);
    assert_eq!(s.kill(0, vpid_of(1), 99), Killed::Invalid);
    assert_eq!(s.kill(0, vpid_of(1), 10), Killed::Queued(1));
    assert_eq!((s.signal_count(0, 9), s.signal_count(1, 10)), (1, 1));
    // Taken once, by a thread that does not block it
    let (mut own, mut blocked) = (Pending::new(), vec![false; 32]);
    own.send(3);
    blocked[10] = true;
    assert_eq!(s.take_signals(1, &mut own, &blocked), [3]);
    blocked[10] = false;
    assert_eq!(s.take_signals(0, &mut own, &blocked), []);
    assert_eq!(s.take_signals(1, &mut own, &blocked), [10]);
    assert_eq!(s.take_signals(1, &mut own, &blocked), []);
    assert_eq!(s.kill(0, vpid_of(1), SIGTERM), Killed::Fatal(1));
    assert!(s.procs[1].killed);
    assert_eq!(s.threads[1].state, T_EXITED);
    // The killed stay killed
    assert_eq!(s.kill(0, vpid_of(1), 0), Killed::NoProcess);
}

#[test]
fn crashes_are_injected_at_their_time() {
    let mut s = two();
    let faults = Faults {
        restart: RESTART_ON_FAILURE,
        restart_delay_lo_ns: 1_000,
        restart_delay_hi_ns: 1_000,
        restarts_left: NO_LIMIT,
        crash_lo_ns: 30_000,
        crash_hi_ns: 30_000,
        crashes_left: 1,
    };
    s.set_faults(1, faults, 1);
    for _ in 0..10 {
        if s.crashes_injected > 0 {
            break;
        }
        let from = s.current as usize;
        s.hand_off(Some((from, T_RUNNABLE, 0)), 0);
    }
    assert_eq!((s.crashes_injected, s.restarts), (1, 1));
    assert_eq!(s.take_kills(), [501]);
    assert!(s.take_kills().is_empty());
    assert!(s.procs[1].killed);
    assert_eq!(s.replacement_of(1), Some(2));
    assert_eq!(s.procs[2].restart_of, 1);
    // No crash is left for the new life
    assert_eq!(s.procs[2].crash_at, 0);
}

#[test]
fn restarts_as_asked() {
    let mut s = two();
    let never = Faults::default();
    s.set_faults(0, never, 0);
    assert!(!s.will_restart(0, 1));
    let on_failure = Faults { restart: RESTART_ON_FAILURE, restarts_left: 1, ..never };
    s.set_faults(0, on_failure, 0);
    assert!(s.will_restart(0, 1 << 8) && !s.will_restart(0, 0));
    let always = Faults { restart: RESTART_ALWAYS, restarts_left: 1, ..never };
    s.set_faults(0, always, 0);
    assert!(s.will_restart(0, 0));
    let died = s.process_died(0, 0);
    assert!(died.is_some());
    assert_eq!(s.procs[0].state, P_EXITED);
    assert_eq!(s.replacement_of(0), Some(2));
    assert!(s.is_starting(2));
    assert_eq!(s.proc_count(), 3);
    assert_eq!(s.thread_count(), 3);
    assert!(s.any_alive());
    assert!(!s.any_outside_threads());
}

#[test]
fn a_reseeded_run_is_another_from_then_on() {
    let run = |reseed: Option<(u64, u64)>| {
        let mut s = State::new(7, 10, 20);
        s.add_host(b"alpha");
        for i in 0..3 {
            s.add_proc(0, NO_PROC);
            s.add_thread(i);
        }
        if let Some((at, with)) = reseed {
            s.set_reseed(at, with);
        }
        s.hand_off(None, 0);
        let mut order = vec![(s.current, s.pending_quantum)];
        for _ in 0..40 {
            let from = s.current as usize;
            s.hand_off(Some((from, T_RUNNABLE, 0)), 0x40);
            order.push((s.current, s.pending_quantum));
        }
        (order, s.new_seed())
    };
    let (plain, none) = run(None);
    assert_eq!(none, None);
    // 10 us for each hand-off: it is time at the twentieth
    let (other, seed) = run(Some((200_000, 99)));
    assert_eq!(seed, Some(99));
    assert_eq!(plain[..20], other[..20]);
    assert_ne!(plain[20..], other[20..]);
    assert_eq!(run(Some((200_000, 99))).0, other);
    assert_eq!(run(Some((u64::MAX, 99))).0, plain);
    // At once: nothing of the first seed is left
    assert_ne!(run(Some((0, 99))).0[0], plain[0]);
}

#[test]
fn handing_the_baton_on_costs_time() {
    let mut s = two();
    let before = s.clock();
    s.hand_off(Some((0, T_RUNNABLE, 0)), 0);
    assert_eq!(s.clock(), before + DEFAULT_SWITCH_NS);
    s.set_switch_cost(5_000);
    let from = s.current as usize;
    s.hand_off(Some((from, T_RUNNABLE, 0)), 0);
    assert_eq!(s.clock(), before + DEFAULT_SWITCH_NS + 5_000);
}

#[test]
fn reading_the_clock_moves_it() {
    let mut s = two();
    let a = s.clock_read();
    let b = s.clock_read();
    assert!(a < b);
    let q = s.renew_quantum();
    assert!((10..=20).contains(&q));
    s.set_net_latency(5);
    assert_eq!(s.net.latency_ns, 5);
    assert_eq!(s.net_counts().connections, 0);
}

#[test]
fn a_thread_is_woken_by_its_number() {
    let mut s = two();
    s.threads[1].state = T_BLOCKED;
    s.wake_thread(1);
    assert_eq!(s.threads[1].state, T_RUNNABLE);
    s.threads[1].state = T_EXITED;
    s.wake_thread(1);
    assert_eq!(s.threads[1].state, T_EXITED);
}

#[test]
fn real_pids_do_not_show_in_the_schedule() {
    let run = |pid: i32, pthread: u64| {
        let mut s = State::new(7, 10, 20);
        s.add_host(b"alpha");
        for i in 0..3 {
            s.add_proc(0, NO_PROC);
            let t = s.add_thread(i);
            s.attach(i, t, pthread + i as u64, pid + i as i32);
        }
        s.hand_off(None, 0);
        for _ in 0..30 {
            let from = s.current as usize;
            s.hand_off(Some((from, T_RUNNABLE, 0)), 0x40);
        }
        s.counts()
    };
    assert_eq!(run(500, 0x1000), run(9000, 0x7F00_0000));
}

#[test]
fn the_first_baton_waits_for_parked_threads() {
    let mut s = two();
    assert!(!s.all_parked());
    s.set_parked(0, true);
    assert!(!s.all_parked());
    s.set_parked(1, true);
    assert!(s.all_parked());
    s.set_parked(0, false);
    assert!(!s.all_parked());
}

#[test]
fn a_timer_goes_off_at_its_time() {
    let mut s = two();
    let now = s.clock_ns;
    assert_eq!(s.set_timer(0, 5_000_000, 2_000_000), (0, 0));
    assert_eq!(s.timer(0), (5_000_000, 2_000_000));
    // Both block, without a deadline: only the timer can end it
    s.threads[1].state = T_BLOCKED;
    s.threads[1].key = SLEEP_KEY;
    assert_eq!(s.hand_off(Some((0, T_BLOCKED, IO_KEY)), 0), Handoff::Stay);
    assert_eq!(s.clock_ns, now + 5_000_000);
    assert_eq!((s.threads[0].state, s.threads[1].state), (T_RUNNING, T_BLOCKED));
    assert!(!s.threads[0].timed_out);
    let (mut own, none) = (Pending::new(), vec![false; 32]);
    assert_eq!(s.take_signals(0, &mut own, &none), [14]);
    assert_eq!(s.signal_count(0, 14), 1);
    // It starts over
    assert_eq!(s.timer(0), (2_000_000, 2_000_000));
    assert_eq!(s.hand_off(Some((0, T_BLOCKED, IO_KEY)), 0), Handoff::Stay);
    assert_eq!(s.clock_ns, now + 7_000_000);
    // Off, nothing is to come
    assert_eq!(s.alarm(0, 0), 1);
    assert_eq!(s.hand_off(Some((0, T_BLOCKED, IO_KEY)), 0), Handoff::Idle);
    assert_eq!(s.signal_count(0, 14), 2);
}

#[test]
fn a_parent_is_told_of_a_death() {
    let mut s = two();
    let child = s.register_child(0);
    s.process_died(child, 256);
    assert_eq!(s.take_child_death(0, true), None);
    let told = s.take_child_death(0, false).unwrap();
    assert_eq!((told.pid, told.status), (vpid_of(child), 256));
    assert_eq!(s.take_child_death(0, false), None);
    // One that was killed, before and after it is reaped
    let child = s.register_child(0);
    s.kill(0, vpid_of(child), 9);
    let told = s.take_child_death(0, false).unwrap();
    assert_eq!((told.pid, told.status), (vpid_of(child), 9));
    s.process_died(child, 9);
    assert_eq!(s.take_child_death(0, false), None);
    assert_eq!(s.take_child_death(1, false), None);
}
