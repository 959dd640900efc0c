use derp::errno::Errno;
use derp::kevent::{Call, Stage};
use derp::kq::{
    done, route, Change, Kevent, Kq, Receipts, Registry, Route, Snapshot, Step, Told, EVFILT_PROC,
    EVFILT_READ, EVFILT_SIGNAL, EVFILT_USER, EVFILT_VNODE, EV_ADD, EV_CLEAR, EV_DELETE, EV_DISABLE,
    EV_DISPATCH, EV_ENABLE, EV_EOF, EV_ERROR, EV_ONESHOT, EV_RECEIPT, NOTE_EXIT, NOTE_EXITSTATUS,
};
use derp::names::{
    interfaces, name_room, parse_ipv4, Answer, Failure, Query, AF_INET, AI_CANONNAME,
    AI_NUMERICHOST, AI_PASSIVE, SOCK_DGRAM, SOCK_STREAM,
};
use derp::net::{
    addr_bytes, attempt, opens, option_value, outside, parse_addr, shut, store_addr, Attempt, Next,
    Opens, Transfer, AF_INET6, AF_UNIX, MSG_WAITALL, SHUT_RD, SHUT_WR, SOL_SOCKET, SO_TYPE,
};
use derp::netstate::calls::Reached;
use derp::netstate::readiness::{Readiness, POLLHUP, POLLIN, POLLNVAL, POLLOUT};
use derp::netstate::{
    Addr, Net, NetError, FAMILY_INET, FAMILY_UNIX, KIND_DGRAM, KIND_STREAM, LOOPBACK, SUBNET,
};
use derp::poll::{
    between_guests, for_kernel, poll_timeout, scan, select_fds, selected, Pollfd,
};
use derp::poll;
use derp::shared::{vpid_of, State, NO_PROC};

fn two_hosts() -> Net {
    let mut n = Net::new();
    n.add_host(b"alpha");
    n.add_host(b"beta");
    n
}

fn query(node: Option<&str>, service: Option<&str>) -> Query {
    Query {
        node: node.map(|s| s.as_bytes().to_vec()),
        service: service.map(|s| s.as_bytes().to_vec()),
        family: AF_INET,
        socktype: SOCK_STREAM,
        flags: 0,
        is_v6: false,
    }
}

fn failure(a: Answer) -> Failure {
    match a {
        Answer::Failed(f) => f,
        _ => panic!("an answer"),
    }
}

#[test]
fn hosts_of_the_run_are_found_by_name() {
    let n = two_hosts();
    let q = query(Some("beta"), Some("80"));
    match q.resolve(&n, false) {
        Answer::Found(name, e) => {
            assert_eq!(name, b"beta");
            assert_eq!(e.len(), 1);
            assert_eq!((e[0].ip, e[0].port, e[0].canon), (SUBNET + 2, 80, false));
        }
        _ => panic!("not found"),
    }
    // Any kind of socket: one entry for each
    let q = Query { socktype: 0, flags: AI_CANONNAME, ..query(Some("alpha"), None) };
    match q.resolve(&n, false) {
        Answer::Found(_, e) => {
            assert_eq!((e[0].socktype, e[1].socktype), (SOCK_STREAM, SOCK_DGRAM));
            assert!(e[0].canon && !e[1].canon);
        }
        _ => panic!("not found"),
    }
    match query(Some("10.0.0.9"), Some("1")).resolve(&n, false) {
        Answer::Found(_, e) => assert_eq!(e[0].ip, SUBNET + 9),
        _ => panic!("not found"),
    }
    match (Query { flags: AI_PASSIVE, ..query(None, Some("1")) }).resolve(&n, false) {
        Answer::Found(_, e) => assert_eq!(e[0].ip, 0),
        _ => panic!("not found"),
    }
    match query(None, Some("1")).resolve(&n, false) {
        Answer::Found(_, e) => assert_eq!(e[0].ip, LOOPBACK),
        _ => panic!("not found"),
    }
}

#[test]
fn names_that_are_not_found() {
    let n = two_hosts();
    let outside = query(Some("example.com"), Some("80"));
    assert_eq!(failure(outside.resolve(&n, false)), Failure::NoName);
    assert!(matches!(outside.resolve(&n, true), Answer::System));
    let numeric = Query { flags: AI_NUMERICHOST, ..query(Some("example.com"), None) };
    assert!(matches!(numeric.resolve(&n, false), Answer::System));
    let v6 = Query { family: 30, ..query(Some("alpha"), None) };
    assert_eq!(failure(v6.resolve(&n, false)), Failure::Family);
    let named = query(Some("alpha"), Some("http"));
    assert_eq!(failure(named.resolve(&n, false)), Failure::Service);
    // Not UTF-8, so no number
    let odd = Query { service: Some(vec![0x38, 0xFF]), ..query(Some("alpha"), None) };
    assert_eq!(failure(odd.resolve(&n, false)), Failure::Service);
    let raw = Query { socktype: 3, ..query(Some("alpha"), None) };
    assert_eq!(failure(raw.resolve(&n, false)), Failure::SockType);
}

#[test]
fn addresses_in_dots() {
    assert_eq!(parse_ipv4("10.0.0.1"), Some(0x0A00_0001));
    assert_eq!(parse_ipv4("255.255.255.255"), Some(u32::MAX));
    assert_eq!(parse_ipv4("0.0.0.0"), Some(0));
    for wrong in ["", "1.2.3", "1.2.3.4.5", "256.0.0.1", "01.2.3.4", "1..2.3", " 1.2.3.4"] {
        assert_eq!(parse_ipv4(wrong), None, "{wrong}");
    }
    assert_eq!(name_room(5, 6), Some(5));
    assert_eq!(name_room(5, 0), None);
    let (lo, en) = interfaces(SUBNET + 1);
    assert_eq!((lo.ip, lo.mask), (LOOPBACK, 0xFF00_0000));
    assert_eq!((en.ip, en.mask), (SUBNET + 1, 0xFFFF_FF00));
    assert_eq!(en.broadcast, Some(SUBNET + 255));
    assert_eq!(lo.broadcast, None);
}

#[test]
fn socket_names_read_back() {
    let a = Addr::inet(0x0A00_0001, 80);
    let b = addr_bytes(&a);
    assert_eq!(b.len(), 16);
    assert_eq!(b[2..8], [0, 80, 10, 0, 0, 1]);
    assert_eq!(parse_addr(&b), Some(a));
    let u = Addr::unix(b"/tmp/s");
    assert_eq!(parse_addr(&addr_bytes(&u)), Some(u));
    assert_eq!(u.path(), b"/tmp/s");
    assert_eq!(parse_addr(&b[..7]), None);
    assert_eq!(parse_addr(&[16, 30, 0, 0]), None);
    // As much as there is room for, and how long it is
    let (part, len) = store_addr(&a, 4);
    assert_eq!((part, len), (b[..4].to_vec(), 16));
    let made = |family, kind| Opens::Virtual { family, kind };
    assert_eq!(opens(true, AF_INET, SOCK_STREAM), made(FAMILY_INET, KIND_STREAM));
    assert_eq!(opens(true, AF_INET, SOCK_DGRAM), made(FAMILY_INET, KIND_DGRAM));
    assert_eq!(opens(true, AF_UNIX, SOCK_STREAM), made(FAMILY_UNIX, KIND_STREAM));
    assert_eq!(opens(true, AF_UNIX, SOCK_DGRAM), Opens::Kernel);
    assert_eq!(opens(true, AF_INET6, SOCK_STREAM), Opens::Unsupported);
    assert_eq!(opens(false, AF_INET, SOCK_STREAM), Opens::Kernel);
    assert_eq!(outside(true), Ok(()));
    assert_eq!(outside(false), Err(Errno::NetUnreach));
}

#[test]
fn transfers_block_until_they_are_done() {
    assert_eq!(attempt(Ok(3), false), Attempt::Done(3));
    assert_eq!(attempt(Err(NetError::WouldBlock), false), Attempt::Park);
    assert_eq!(
        attempt(Err(NetError::WouldBlock), true),
        Attempt::Failed(Errno::Again)
    );
    assert_eq!(
        attempt(Err(NetError::Errno(Errno::Pipe)), false),
        Attempt::Failed(Errno::Pipe)
    );
    let mut t = Transfer::sending(10);
    assert_eq!(t.step(Attempt::Done(4)), Next::Again);
    assert_eq!(t.step(Attempt::Park), Next::Park);
    assert_eq!(t.step(Attempt::Failed(Errno::Pipe)), Next::Return(4));
    assert_eq!(t.step(Attempt::Done(6)), Next::Return(10));
    let mut r = Transfer::receiving(10, 0);
    assert_eq!(r.step(Attempt::Done(4)), Next::Return(4));
    let mut r = Transfer::receiving(10, MSG_WAITALL);
    assert_eq!(r.step(Attempt::Done(4)), Next::Again);
    assert_eq!(r.step(Attempt::Done(0)), Next::Return(4));
    let mut r = Transfer::receiving(10, 0);
    assert_eq!(r.step(Attempt::Failed(Errno::Again)), Next::Fail(Errno::Again));
    assert_eq!(shut(SHUT_RD), (true, false));
    assert_eq!(shut(SHUT_WR), (false, true));
    assert_eq!(shut(2), (true, true));
    assert_eq!(option_value(KIND_STREAM, SOL_SOCKET, SO_TYPE), SOCK_STREAM);
    assert_eq!(option_value(KIND_DGRAM, SOL_SOCKET, SO_TYPE), SOCK_DGRAM);
    assert_eq!(option_value(KIND_DGRAM, SOL_SOCKET, 0), 0);
}

#[test]
fn sockets_as_processes_use_them() {
    let mut n = two_hosts();
    let l = n.open_socket(1, 0, FAMILY_INET, KIND_STREAM, 100).unwrap();
    n.bind(l, Addr::inet(0, 80)).unwrap();
    n.listen(l, 4).unwrap();
    let c = n.open_socket(2, 1, FAMILY_INET, KIND_STREAM, 200).unwrap();
    assert_eq!(n.by_ident(200), Some(c));
    let dest = Addr::inet(n.host_addr(0), 80);
    assert!(matches!(
        n.accept_as(1, l, 101),
        Err(NetError::WouldBlock)
    ));
    assert_eq!(n.connect_from(c, 1, &dest), Reached::Made);
    let (far, from) = n.accept_as(1, l, 101).unwrap();
    assert_eq!(n.by_ident(101), Some(far));
    assert_eq!(from.ip, n.host_addr(1));
    assert_eq!(n.peer_of(c), Some(dest));
    assert_eq!(n.name_of(far).port, 80);
    assert_eq!(n.peer_of(l), None);
    let d = n.open_socket(2, 1, FAMILY_INET, KIND_STREAM, 201).unwrap();
    assert_eq!(
        n.connect_from(d, 1, &Addr::inet(n.host_addr(0), 81)),
        Reached::Failed(NetError::Errno(Errno::ConnRefused))
    );
    assert_eq!(
        n.connect_from(d, 1, &Addr::inet(0x0808_0808, 53)),
        Reached::Outside
    );
    n.left(2, d);
    assert_eq!(n.by_ident(201), None);
}

#[test]
fn readiness_of_sockets() {
    let mut n = two_hosts();
    let a = n.open_socket(1, 0, FAMILY_INET, KIND_DGRAM, 1).unwrap();
    n.bind(a, Addr::inet(0, 53)).unwrap();
    let b = n.open_socket(1, 0, FAMILY_INET, KIND_DGRAM, 2).unwrap();
    assert!(!n.readiness(a, true).ready);
    assert_eq!(n.poll_events(a, POLLIN | POLLOUT), POLLOUT);
    n.send_dgram(b, Some((0, Addr::inet(LOOPBACK, 53))), b"hello").unwrap();
    let r = n.readiness(a, true);
    assert!(r.ready && !r.eof);
    assert_eq!(n.poll_events(a, POLLIN), POLLIN);
    let mut fds = vec![
        Pollfd { fd: 5, events: POLLIN, revents: 9 },
        Pollfd { fd: 6, events: POLLIN, revents: 9 },
        Pollfd { fd: -1, events: POLLIN, revents: 9 },
    ];
    let socks = vec![Some(a), None, None];
    let asked = for_kernel(&fds, &socks);
    assert_eq!(asked, [Pollfd { fd: 6, events: POLLIN, revents: 0 }]);
    assert_eq!(scan(&n, &mut fds, &socks, &vec![POLLHUP]), 2);
    let seen: Vec<i16> = fds.iter().map(|f| f.revents).collect();
    assert_eq!(seen, [POLLIN, POLLHUP, 0]);
    assert!(between_guests(&fds, &socks, &vec![false, true, false]));
    assert!(!between_guests(&fds, &vec![None, None, None], &vec![false, false, false]));
}

#[test]
fn polls_and_selects() {
    assert_eq!(poll::route(true, true, false, Some(5)), poll::Route::Sleep(5));
    assert_eq!(poll::route(true, false, false, Some(5)), poll::Route::Kernel);
    assert_eq!(poll::route(true, false, true, None), poll::Route::Wait(None));
    assert_eq!(poll::route(false, false, true, None), poll::Route::Kernel);
    assert_eq!(poll_timeout(-1), None);
    assert_eq!(poll_timeout(2), Some(2_000_000));
    let fds = select_fds(
        3,
        &vec![true, false, false, true],
        &vec![true, true],
        &vec![false, false, false],
    );
    assert_eq!(fds.len(), 2);
    assert_eq!((fds[0].fd, fds[0].events), (0, POLLIN | POLLOUT));
    assert_eq!((fds[1].fd, fds[1].events), (1, POLLOUT));
    let mut got = fds.clone();
    got[0].revents = POLLHUP;
    got[1].revents = POLLOUT;
    let s = selected(&got).unwrap();
    assert_eq!((s.read, s.write), (vec![0], vec![1]));
    assert!(s.error.is_empty());
    got[1].revents = POLLNVAL;
    assert!(selected(&got).is_none());
}

fn event(ident: u64, filter: i16, flags: u16) -> Kevent {
    Kevent { ident, filter, flags, fflags: 0, data: 0, udata: 77 }
}

fn on_socket(ev: Kevent, sock: u32) -> Change {
    Change { ev, sock: Some(sock), guest_object: false, count: 0 }
}

fn ready(data: i64, events: u64) -> Option<Snapshot> {
    Some(Snapshot { now: Readiness { ready: true, eof: false, data }, events })
}

#[test]
fn registrations_fire_as_they_ask() {
    let mut k = Kq::new(3);
    let (kernels, steps, receipts) = k.apply(&vec![
        on_socket(event(5, EVFILT_READ, EV_ADD | EV_CLEAR), 9),
        on_socket(event(6, EVFILT_READ, EV_ADD | EV_ONESHOT), 9),
        on_socket(event(7, EVFILT_READ, EV_ADD), 9),
    ]);
    assert!(kernels.is_empty() && steps.is_empty() && !receipts);
    assert!(k.is_ours());
    let snaps = vec![ready(4, 1), ready(4, 1), ready(4, 1)];
    let fired = k.collect(&snaps, 10);
    let idents: Vec<u64> = fired.iter().map(|e| e.ident).collect();
    assert_eq!(idents, [5, 6, 7]);
    assert_eq!((fired[0].data, fired[0].udata), (4, 77));
    // The edge waits for its next cause, the one shot is gone
    assert_eq!(k.regs.len(), 2);
    let fired = k.collect(&vec![ready(4, 1), ready(4, 1)], 10);
    assert_eq!(fired.iter().map(|e| e.ident).collect::<Vec<_>>(), [7]);
    let fired = k.collect(&vec![ready(5, 2), ready(5, 2)], 1);
    assert_eq!(fired.iter().map(|e| e.ident).collect::<Vec<_>>(), [5]);
    k.apply(&vec![on_socket(event(7, EVFILT_READ, EV_DELETE), 9)]);
    assert_eq!(k.regs.len(), 1);
}

#[test]
fn receipts_come_in_the_order_asked() {
    let mut k = Kq::new(3);
    let (_, steps, receipts) = k.apply(&vec![
        on_socket(event(5, EVFILT_READ, EV_ADD | EV_RECEIPT), 9),
        Change {
            ev: event(8, EVFILT_VNODE, EV_ADD | EV_RECEIPT),
            sock: None,
            guest_object: false,
            count: 0,
        },
    ]);
    assert!(receipts);
    assert!(matches!(steps[0], Step::Ours(e) if e.flags & EV_ERROR != 0 && e.ident == 5));
    assert!(matches!(steps[1], Step::Kernels(e) if e.ident == 8));
    assert_eq!(route(true, true), Route::Receipts);
    assert_eq!(route(false, false), Route::Kernel);
    assert_eq!(route(true, false), Route::Scheduler);
    let mut r = Receipts::new(steps, 4);
    let (asked, _) = r.next().unwrap();
    assert_eq!(asked.ident, 8);
    r.take(&vec![event(8, EVFILT_VNODE, EV_ERROR)]);
    assert!(r.next().is_none());
    assert_eq!(r.out.iter().map(|e| e.ident).collect::<Vec<_>>(), [5, 8]);
    assert!(done(1, None) && done(0, Some(0)) && !done(0, None));
}

#[test]
fn descriptors_of_queues() {
    let mut r = Registry::new();
    r.created(3, true);
    r.created(4, false);
    assert_eq!(r.find(3), Some(0));
    assert_eq!(r.find(4), None);
    r.duplicated(3, 9);
    assert_eq!(r.find(9), Some(0));
    r.closed(3);
    assert_eq!((r.find(3), r.find(9)), (None, Some(0)));
    assert_eq!(r.find_or_add(7), 1);
    r.forked();
    assert_eq!(r.find(9), None);
}

/// Two guests with a thread each
fn guests() -> State {
    let mut s = State::new(7, 10, 20);
    s.add_host(b"alpha");
    for i in 0..2 {
        s.add_proc(0, NO_PROC);
        let t = s.add_thread(i);
        assert!(s.attach(i, t, 0x1000 + i as u64, 500 + i as i32));
    }
    s
}

#[test]
fn a_call_parks_until_something_fires() {
    let s = guests();
    let mut r = Registry::new();
    r.created(3, true);
    let changes = vec![on_socket(event(5, EVFILT_READ, EV_ADD), 9)];
    let mut c = Call::begin(&mut r, 3, &changes, 4, None);
    assert_eq!(c.stage, Stage::Look);
    assert_eq!(c.watched(&r), [(9, EVFILT_READ)]);
    c.look(&mut r, &vec![None]);
    assert_eq!(c.stage, Stage::Feed);
    c.feed(&mut r, &s, 0);
    assert_eq!(c.stage, Stage::Poll);
    c.polled(&mut r, &Vec::new());
    assert_eq!(c.stage, Stage::Park);
    c.parked(false);
    assert_eq!(c.stage, Stage::Look);
    c.look(&mut r, &vec![ready(2, 1)]);
    c.feed(&mut r, &s, 0);
    c.polled(&mut r, &Vec::new());
    assert_eq!((c.stage, c.out.len()), (Stage::Over, 1));
    // Nothing to wait for
    let mut c = Call::begin(&mut r, 3, &Vec::new(), 4, Some(0));
    c.look(&mut r, &vec![None]);
    c.feed(&mut r, &s, 0);
    c.polled(&mut r, &Vec::new());
    assert_eq!((c.stage, c.out.len()), (Stage::Over, 0));
    let mut c = Call::begin(&mut r, 3, &Vec::new(), 4, Some(50));
    c.look(&mut r, &vec![None]);
    c.feed(&mut r, &s, 0);
    c.polled(&mut r, &Vec::new());
    c.parked(true);
    assert_eq!(c.stage, Stage::Over);
    let user = s.change(0, event(1, EVFILT_USER, EV_ADD), None, false);
    let mut c = Call::begin(&mut r, 3, &vec![user], 0, None);
    assert_eq!(c.stage, Stage::Change);
    assert_eq!(c.kernels.len(), 1);
    c.changed();
    assert_eq!(c.stage, Stage::Over);
}

#[test]
fn watches_on_guests_and_signals_are_the_runs() {
    let plain = |ident, filter, flags| Change {
        ev: event(ident, filter, flags),
        sock: None,
        guest_object: false,
        count: 0,
    };
    let mut k = Kq::new(3);
    let (kernels, steps, _) = k.apply(&vec![
        plain(100_001, EVFILT_PROC, EV_ADD | EV_RECEIPT),
        plain(16, EVFILT_SIGNAL, EV_ADD),
    ]);
    assert!(kernels.is_empty());
    assert_eq!(steps.len(), 1);
    assert!(matches!(&steps[0], Step::Ours(e) if e.flags & EV_ERROR != 0));
    let on: Vec<(u64, i16)> = k.watches.iter().map(|w| (w.ident, w.filter)).collect();
    assert_eq!(on, [(100_001, EVFILT_PROC), (16, EVFILT_SIGNAL)]);
    assert!(k.is_ours());
    k.apply(&vec![
        plain(100_001, EVFILT_PROC, EV_DELETE),
        plain(16, EVFILT_SIGNAL, EV_DELETE),
    ]);
    // A process that is no guest's is the kernel's to watch
    let (kernels, _, _) = k.apply(&vec![plain(77, EVFILT_PROC, EV_ADD)]);
    assert_eq!(kernels.len(), 1);
    assert!(!k.is_ours());
    k.apply(&vec![plain(16, EVFILT_SIGNAL, EV_ADD)]);
    assert!(k.is_ours());
}

/// A call that makes these changes, up to where it would ask the kernel
fn asked(s: &State, r: &mut Registry, changes: Vec<Kevent>, room: usize) -> Call {
    let changes = changes.into_iter().map(|ev| s.change(0, ev, None, false)).collect();
    let mut c = Call::begin(r, 3, &changes, room, None);
    assert!(c.kernels.is_empty());
    c.look(r, &Vec::new());
    c.feed(r, s, 0);
    c
}

#[test]
fn a_watched_signal_ends_the_wait() {
    let mut s = guests();
    let urg = 16;
    s.kill(1, vpid_of(0), urg);
    let mut r = Registry::new();
    let mut c = asked(&s, &mut r, vec![event(16, EVFILT_SIGNAL, EV_ADD)], 4);
    // What came before does not count
    c.polled(&mut r, &Vec::new());
    assert_eq!(c.stage, Stage::Park);
    s.kill(1, vpid_of(0), urg);
    s.kill(0, vpid_of(0), urg);
    c.parked(false);
    c.look(&mut r, &Vec::new());
    c.feed(&mut r, &s, 0);
    assert_eq!(c.stage, Stage::Poll);
    c.polled(&mut r, &Vec::new());
    assert_eq!(c.stage, Stage::Over);
    let e = c.out[0];
    assert_eq!((e.ident, e.filter, e.data, e.udata), (16, EVFILT_SIGNAL, 2, 77));
    // Told once
    assert!(asked(&s, &mut r, Vec::new(), 4).out.is_empty());
    s.kill(1, vpid_of(0), urg);
    // Disabled, it waits
    let off = event(16, EVFILT_SIGNAL, EV_DISABLE);
    assert!(asked(&s, &mut r, vec![off], 4).out.is_empty());
    let on = event(16, EVFILT_SIGNAL, EV_ENABLE);
    let c = asked(&s, &mut r, vec![on], 1);
    assert_eq!((c.stage, c.out.len(), c.out[0].data), (Stage::Over, 1, 1));
}

#[test]
fn a_watched_process_ends_the_wait() {
    let mut s = guests();
    let pid = vpid_of(1) as u64;
    let mut r = Registry::new();
    let mut exit = event(pid, EVFILT_PROC, EV_ADD);
    exit.fflags = NOTE_EXIT | NOTE_EXITSTATUS;
    let mut c = asked(&s, &mut r, vec![exit], 4);
    c.polled(&mut r, &Vec::new());
    assert_eq!(c.stage, Stage::Park);
    s.process_died(1, 256);
    c.parked(false);
    c.look(&mut r, &Vec::new());
    c.feed(&mut r, &s, 0);
    let e = c.out[0];
    assert_eq!((e.ident, e.filter, e.udata), (pid, EVFILT_PROC, 77));
    assert_eq!((e.fflags, e.data), (NOTE_EXIT | NOTE_EXITSTATUS, 256));
    assert!(e.flags & EV_EOF != 0);
    assert!(asked(&s, &mut r, Vec::new(), 4).out.is_empty());
    assert_eq!(r.kqs[0].watches.len(), 1);
    // Only once, and without its status
    let once = event(pid, EVFILT_PROC, EV_ADD | EV_ONESHOT);
    let c = asked(&s, &mut r, vec![once], 4);
    assert_eq!((c.out[0].fflags, c.out[0].data), (NOTE_EXIT, 0));
    assert!(r.kqs[0].watches.is_empty());
    // One that was killed is gone before it is reaped
    let mut s = guests();
    let dispatch = event(pid, EVFILT_PROC, EV_ADD | EV_DISPATCH);
    assert!(asked(&s, &mut r, vec![dispatch], 4).out.is_empty());
    s.kill(0, vpid_of(1), 9);
    assert_eq!(s.told_of(0, &r.kqs[0].watches[0]), Told::Gone(9));
    assert_eq!(asked(&s, &mut r, Vec::new(), 4).out.len(), 1);
    assert!(!r.kqs[0].watches[0].enabled);
}
