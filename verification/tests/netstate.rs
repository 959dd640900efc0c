use derp::errno::Errno;
use derp::netstate::{
    Addr, Net, NetError, FAMILY_INET, FAMILY_UNIX, FIRST_EPHEMERAL, KIND_DGRAM, KIND_STREAM,
    LOOPBACK, MAX_DGRAM, RING, SUBNET, S_FREE, S_LISTENING,
};

fn net() -> Net {
    let mut n = Net::new();
    n.add_host(b"alpha");
    n.add_host(b"beta");
    n
}

fn listener(n: &mut Net, host: u32, port: u16) -> u32 {
    let l = n.socket(host, FAMILY_INET, KIND_STREAM).unwrap();
    n.add_ref(host, l);
    n.bind(l, Addr::inet(0, port)).unwrap();
    n.listen(l, 8).unwrap();
    l
}

fn client(n: &mut Net, host: u32) -> u32 {
    let c = n.socket(host, FAMILY_INET, KIND_STREAM).unwrap();
    n.add_ref(host, c);
    c
}

#[test]
fn connect_accept_and_echo_across_hosts() {
    let mut n = net();
    let l = listener(&mut n, 0, 80);
    let c = client(&mut n, 1);
    let dest = Addr::inet(n.hosts[0].addr, 80);
    assert_eq!(n.accept(l), Err(NetError::WouldBlock));
    n.connect(c, 0, &dest).unwrap();
    // Data sent before accept waits in the far end's ring
    assert_eq!(n.send(c, b"hello"), Ok(5));
    let far = n.accept(l).unwrap();
    n.add_ref(0, far);
    let mut buf = [0u8; 16];
    assert_eq!(n.recv(far, &mut buf, true), Ok(5));
    assert_eq!(n.recv(far, &mut buf, false), Ok(5));
    assert_eq!(&buf[..5], b"hello");
    assert_eq!(n.recv(far, &mut buf, false), Err(NetError::WouldBlock));
    assert_eq!(n.socks[far as usize].peer.ip, n.hosts[1].addr);
    assert_eq!(n.socks[c as usize].peer.port, 80);
    assert!(n.socks[c as usize].local.port >= FIRST_EPHEMERAL);
    assert_eq!((n.connections, n.bytes), (1, 5));
}

#[test]
fn a_full_ring_pushes_back_and_wraps() {
    let mut n = net();
    let l = listener(&mut n, 0, 80);
    let c = client(&mut n, 0);
    n.connect(c, 0, &Addr::inet(LOOPBACK, 80)).unwrap();
    let far = n.accept(l).unwrap();
    n.add_ref(0, far);
    let block = vec![7u8; RING - 10];
    assert_eq!(n.send(c, &block), Ok(RING - 10));
    assert_eq!(n.send(c, &[1; 100]), Ok(10));
    assert!(!n.writable(c));
    assert_eq!(n.send(c, &[1; 100]), Err(NetError::WouldBlock));
    let mut buf = vec![0u8; RING];
    assert_eq!(n.recv(far, &mut buf[..1000], false), Ok(1000));
    assert_eq!(n.send(c, &[9; 2000]), Ok(1000));
    assert_eq!(n.recv(far, &mut buf, false), Ok(RING));
    assert_eq!(
        &buf[RING - 1001..],
        &[1u8; 1]
            .iter()
            .chain([9u8; 1000].iter())
            .copied()
            .collect::<Vec<_>>()[..]
    );
}

#[test]
fn close_is_eof_for_the_reader_and_epipe_for_the_writer() {
    let mut n = net();
    let l = listener(&mut n, 0, 80);
    let c = client(&mut n, 1);
    n.connect(c, 0, &Addr::inet(n.hosts[0].addr, 80)).unwrap();
    let far = n.accept(l).unwrap();
    n.add_ref(0, far);
    n.send(c, b"bye").unwrap();
    n.drop_ref(1, c);
    let mut buf = [0u8; 8];
    assert_eq!(n.recv(far, &mut buf, false), Ok(3));
    assert_eq!(n.recv(far, &mut buf, false), Ok(0));
    assert_eq!(n.send(far, b"x"), Err(NetError::Errno(Errno::Pipe)));
    n.drop_ref(0, far);
    assert_eq!(n.socks[c as usize].state, S_FREE);
    assert_eq!(n.socks[far as usize].state, S_FREE);
}

#[test]
fn half_close_lets_the_other_direction_continue() {
    let mut n = net();
    let l = listener(&mut n, 0, 80);
    let c = client(&mut n, 0);
    n.connect(c, 0, &Addr::inet(LOOPBACK, 80)).unwrap();
    let far = n.accept(l).unwrap();
    n.add_ref(0, far);
    n.shutdown(c, false, true).unwrap();
    let mut buf = [0u8; 8];
    assert_eq!(n.recv(far, &mut buf, false), Ok(0));
    assert_eq!(n.send(far, b"late"), Ok(4));
    assert_eq!(n.recv(c, &mut buf, false), Ok(4));
    assert_eq!(n.send(c, b"x"), Err(NetError::Errno(Errno::Pipe)));
}

#[test]
fn ports_and_names_are_per_host_and_loopback_stays_home() {
    let mut n = net();
    listener(&mut n, 0, 80);
    listener(&mut n, 1, 80);
    let again = n.socket(0, FAMILY_INET, KIND_STREAM).unwrap();
    assert_eq!(
        n.bind(again, Addr::inet(0, 80)),
        Err(NetError::Errno(Errno::AddrInUse))
    );
    let other = n.hosts[1].addr;
    assert_eq!(
        n.bind(again, Addr::inet(other, 81)),
        Err(NetError::Errno(Errno::AddrNotAvail))
    );

    assert_eq!(n.host_for_ip(1, LOOPBACK), Ok(1));
    assert_eq!(n.host_for_ip(1, n.hosts[0].addr), Ok(0));
    assert_eq!(n.host_for_ip(1, SUBNET + 77), Err(true));
    assert_eq!(n.host_for_ip(1, 0x0808_0808), Err(false));

    // Nothing listens on beta's port 81; alpha's loopback is not beta's
    let c = client(&mut n, 1);
    assert_eq!(
        n.connect(c, 1, &Addr::inet(LOOPBACK, 81)),
        Err(NetError::Errno(Errno::ConnRefused))
    );

    let u0 = n.socket(0, FAMILY_UNIX, KIND_STREAM).unwrap();
    let u1 = n.socket(1, FAMILY_UNIX, KIND_STREAM).unwrap();
    n.bind(u0, Addr::unix(b"/tmp/sock")).unwrap();
    n.bind(u1, Addr::unix(b"/tmp/sock")).unwrap();
}

#[test]
fn a_dead_process_releases_what_it_held() {
    let mut n = net();
    let l = listener(&mut n, 0, 80);
    let c = client(&mut n, 1);
    n.connect(c, 0, &Addr::inet(n.hosts[0].addr, 80)).unwrap();
    let far = n.accept(l).unwrap();
    n.add_ref(0, far);
    // A forked worker (process 5) inherits the connection; the server
    // closes its own copy.
    n.set_refs(5, &[far, l]);
    n.drop_ref(0, far);
    assert!(!n.socks[c as usize].fin);
    n.process_died(5);
    assert!(n.socks[c as usize].fin);
    assert_eq!(n.socks[l as usize].state, S_LISTENING);
    assert_eq!(n.by_ident(0), None);
}

fn dgram(n: &mut Net, host: u32, port: Option<u16>) -> u32 {
    let s = n.socket(host, FAMILY_INET, KIND_DGRAM).unwrap();
    n.add_ref(host, s);
    if let Some(port) = port {
        n.bind(s, Addr::inet(0, port)).unwrap();
    }
    s
}

#[test]
fn datagrams_keep_their_boundaries_and_sources() {
    let mut n = net();
    let server = dgram(&mut n, 0, Some(9000));
    let client = dgram(&mut n, 1, None);
    let to = (0, Addr::inet(n.hosts[0].addr, 9000));
    let mut buf = [0u8; 64];
    assert_eq!(n.recv_dgram(server, &mut buf, false), Err(NetError::WouldBlock));
    assert!(!n.readable(server));
    assert_eq!(n.send_dgram(client, Some(to), b"one"), Ok(3));
    assert_eq!(n.send_dgram(client, Some(to), b""), Ok(0));
    assert_eq!(n.send_dgram(client, Some(to), b"three!"), Ok(6));
    assert_eq!(n.pending_bytes(server), 3);

    let (len, from) = n.recv_dgram(server, &mut buf, true).unwrap();
    assert_eq!((len, &buf[..3]), (3, &b"one"[..]));
    let (len, from2) = n.recv_dgram(server, &mut buf, false).unwrap();
    assert_eq!(len, 3);
    assert_eq!((from.ip, from.port), (from2.ip, from2.port));
    // The sender was bound on first use, to its own host's address
    assert_eq!(from.ip, n.hosts[1].addr);
    assert!(from.port >= FIRST_EPHEMERAL);
    assert_eq!(n.recv_dgram(server, &mut buf, false).unwrap().0, 0);
    // A short buffer truncates and the rest of the datagram is gone
    assert_eq!(n.recv_dgram(server, &mut buf[..2], false).unwrap().0, 2);
    assert_eq!(n.recv_dgram(server, &mut buf, false), Err(NetError::WouldBlock));

    // The reply finds the client by the source address
    assert_eq!(n.send_dgram(server, Some((1, from)), b"pong"), Ok(4));
    let (len, back) = n.recv_dgram(client, &mut buf, false).unwrap();
    assert_eq!((len, back.port, back.ip), (4, 9000, n.hosts[0].addr));
}

#[test]
fn lost_datagrams_are_counted_not_reported() {
    let mut n = net();
    let client = dgram(&mut n, 1, None);
    let nowhere = (0, Addr::inet(n.hosts[0].addr, 9));
    assert_eq!(n.send_dgram(client, Some(nowhere), b"x"), Ok(1));
    assert_eq!(n.dropped, 1);

    let server = dgram(&mut n, 0, Some(9000));
    let to = (0, Addr::inet(n.hosts[0].addr, 9000));
    let big = vec![1u8; MAX_DGRAM];
    assert_eq!(n.send_dgram(client, Some(to), &big), Ok(MAX_DGRAM));
    assert_eq!(n.send_dgram(client, Some(to), &big), Ok(MAX_DGRAM));
    assert_eq!(n.dropped, 2);
    assert_eq!(
        n.send_dgram(client, Some(to), &vec![0; MAX_DGRAM + 1]),
        Err(NetError::Errno(Errno::MsgSize))
    );
    let mut buf = vec![0u8; MAX_DGRAM];
    assert_eq!(n.recv_dgram(server, &mut buf, false).unwrap().0, MAX_DGRAM);
    assert_eq!(n.recv_dgram(server, &mut buf, false), Err(NetError::WouldBlock));
}

#[test]
fn a_connected_datagram_socket_has_a_default_peer_and_a_filter() {
    let mut n = net();
    let server = dgram(&mut n, 0, Some(9000));
    let client = dgram(&mut n, 1, None);
    let stranger = dgram(&mut n, 1, None);
    let server_addr = Addr::inet(n.hosts[0].addr, 9000);
    assert_eq!(
        n.send_dgram(client, None, b"x"),
        Err(NetError::Errno(Errno::DestAddrReq))
    );
    n.connect_dgram(client, server_addr).unwrap();
    assert_eq!(n.send_dgram(client, None, b"hi"), Ok(2));
    let mut buf = [0u8; 8];
    let (_, from) = n.recv_dgram(server, &mut buf, false).unwrap();

    n.bind(stranger, Addr::inet(0, 9000)).unwrap();
    assert_eq!(n.send_dgram(stranger, Some((1, from)), b"no"), Ok(2));
    assert_eq!(n.recv_dgram(client, &mut buf, false), Err(NetError::WouldBlock));
    assert_eq!(n.send_dgram(server, Some((1, from)), b"yes"), Ok(3));
    assert_eq!(n.recv_dgram(client, &mut buf, false).unwrap().0, 3);
}

#[test]
fn traffic_between_hosts_arrives_after_the_latency_and_in_order() {
    let mut n = net();
    n.latency_ns = 5_000_000;
    n.advance(1_000_000);
    let l = listener(&mut n, 0, 80);
    let c = client(&mut n, 1);
    n.connect(c, 0, &Addr::inet(n.hosts[0].addr, 80)).unwrap();
    let far = n.accept(l).unwrap();
    n.add_ref(0, far);
    let mut buf = [0u8; 16];

    assert_eq!(n.send(c, b"one"), Ok(3));
    n.advance(2_000_000);
    assert_eq!(n.send(c, b"two"), Ok(3));
    assert_eq!(n.next_due(), Some(6_000_000));
    assert_eq!(n.recv(far, &mut buf, false), Err(NetError::WouldBlock));
    assert!(!n.advance(5_999_999));
    assert!(n.advance(6_000_000));
    assert_eq!(n.recv(far, &mut buf, false), Ok(3));
    assert_eq!(n.next_due(), Some(7_000_000));

    // The close travels behind the data
    n.drop_ref(1, c);
    n.advance(7_000_000);
    assert_eq!(n.recv(far, &mut buf, false), Ok(3));
    assert_eq!(n.recv(far, &mut buf, false), Err(NetError::WouldBlock));
    n.advance(12_000_000);
    assert_eq!(n.recv(far, &mut buf, false), Ok(0));
    assert_eq!(n.next_due(), None);
    assert_eq!(n.bytes, 6);
}

#[test]
fn bytes_in_flight_hold_the_window_and_loopback_is_never_delayed() {
    let mut n = net();
    n.latency_ns = 5_000_000;
    let l = listener(&mut n, 0, 80);
    let c = client(&mut n, 1);
    n.connect(c, 0, &Addr::inet(n.hosts[0].addr, 80)).unwrap();
    let far = n.accept(l).unwrap();
    n.add_ref(0, far);
    let big = vec![3u8; 2 * RING];
    let first = n.send(c, &big).unwrap();
    assert!(first > RING - 64 && first <= RING, "{first}");
    assert!(!n.writable(c));
    assert_eq!(n.send(c, &big), Err(NetError::WouldBlock));
    n.advance(5_000_000);
    assert_eq!(n.pending_bytes(far), first);

    let home = client(&mut n, 0);
    n.connect(home, 0, &Addr::inet(LOOPBACK, 80)).unwrap();
    let far_home = n.accept(l).unwrap();
    n.add_ref(0, far_home);
    assert_eq!(n.send(home, b"now"), Ok(3));
    let mut buf = [0u8; 8];
    assert_eq!(n.recv(far_home, &mut buf, false), Ok(3));

    let server = dgram(&mut n, 0, Some(9000));
    let sender = dgram(&mut n, 1, None);
    let to = (0, Addr::inet(n.hosts[0].addr, 9000));
    assert_eq!(n.send_dgram(sender, Some(to), b"late"), Ok(4));
    assert_eq!(n.recv_dgram(server, &mut buf, false), Err(NetError::WouldBlock));
    n.advance(10_000_000);
    assert_eq!(n.recv_dgram(server, &mut buf, false).unwrap().0, 4);
}

#[test]
fn idents_find_sockets_until_they_are_released() {
    let mut n = net();
    let c = client(&mut n, 0);
    n.set_ident(c, 4711);
    assert_eq!(n.by_ident(4711), Some(c));
    n.drop_ref(0, c);
    assert_eq!(n.by_ident(4711), None);
}

#[test]
fn nothing_arrives_behind_what_is_still_in_flight() {
    let mut n = net();
    n.latency_ns = 5_000_000;
    let server = dgram(&mut n, 0, Some(9000));
    let far = dgram(&mut n, 1, None);
    let near = dgram(&mut n, 0, None);
    let to = (0, Addr::inet(0x0A00_0001, 9000));
    assert_eq!(n.send_dgram(far, Some(to), b"far"), Ok(3));
    assert_eq!(n.send_dgram(near, Some(to), b"near"), Ok(4));
    assert!(!n.advance(1_000_000));
    assert!(!n.readable(server));
    assert!(n.advance(5_000_000));
    let mut buf = [0u8; 16];
    let (len, _) = n.recv_dgram(server, &mut buf, false).unwrap();
    assert_eq!(&buf[..len], b"far");
    let (len, _) = n.recv_dgram(server, &mut buf, false).unwrap();
    assert_eq!(&buf[..len], b"near");
}

#[test]
fn an_image_holds_what_it_inherited() {
    let mut n = net();
    let l = listener(&mut n, 0, 80);
    let c = client(&mut n, 1);
    n.add_ref(7, l);
    n.add_ref(7, c);
    n.add_ref(7, c);
    n.set_refs(7, &[l, l]);
    assert_eq!((n.socks[l as usize].refs, n.socks[c as usize].refs), (3, 1));
    n.set_refs(7, &[l, l]);
    assert_eq!((n.socks[l as usize].refs, n.socks[c as usize].refs), (3, 1));
    assert_eq!(n.socks[l as usize].state, S_LISTENING);
    n.set_refs(1, &[]);
    assert_eq!(n.socks[c as usize].state, S_FREE);
    n.process_died(7);
    assert_eq!(n.socks[l as usize].refs, 1);
    n.process_died(0);
    assert_eq!(n.socks[l as usize].state, S_FREE);
}

#[test]
fn a_datagram_socket_that_listens() {
    let mut n = net();
    let s = n.socket(0, FAMILY_INET, KIND_DGRAM).unwrap();
    assert_eq!(n.listen(s, 8), Ok(()));
    let k = &n.socks[s as usize];
    assert_eq!(k.state, S_LISTENING);
    assert!(k.local.port >= FIRST_EPHEMERAL);
    assert_eq!(n.accept(s), Err(NetError::WouldBlock));
    assert!(!n.readable(s));
}
